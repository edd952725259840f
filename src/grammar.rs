//! The grammar of one line: blank, key-value, section header, or unparsable.
use vstd::prelude::*;
use crate::text::{is_ws, is_whitespace, trim, trim_bounds, lemma_trim_keeps};

verus! {

/// What a line is, with the text it carries.
pub enum LineKind {
    Blank,
    KeyValue(Seq<char>, Seq<char>),
    Header(Seq<char>),
    Unparsable,
}

/// A character that may stand in a key or a value.
pub open spec fn is_token_char(c: char) -> bool {
    c != '=' && !is_ws(c)
}

/// A key or a value: one or more characters, none of them `=` or whitespace.
pub open spec fn is_token(s: Seq<char>) -> bool {
    s.len() > 0 && forall|i: int| 0 <= i < s.len() ==> is_token_char(#[trigger] s[i])
}

/// The `=` at `e` splits the trimmed line `t` into a key and a value, each with
/// optional whitespace around it.
pub open spec fn key_value_at(t: Seq<char>, e: int) -> bool {
    &&& 0 <= e < t.len()
    &&& t[e] == '='
    &&& is_token(trim(t.take(e)))
    &&& is_token(trim(t.skip(e + 1)))
}

/// The key and value of `t`, where `t` reads as `key = value`.
pub open spec fn key_value_of(t: Seq<char>) -> Option<(Seq<char>, Seq<char>)> {
    if exists|e: int| key_value_at(t, e) {
        let e = choose|e: int| key_value_at(t, e);
        Some((trim(t.take(e)), trim(t.skip(e + 1))))
    } else {
        None
    }
}

/// `t` is `[`, a non-empty name, `]`; the name runs from the first `[` to the
/// last `]`.
pub open spec fn is_header(t: Seq<char>) -> bool {
    t.len() >= 3 && t[0] == '[' && t.last() == ']'
}

/// The kind of a line, read after trimming it; key-value comes before header.
pub open spec fn classify(line: Seq<char>) -> LineKind {
    let t = trim(line);
    if t.len() == 0 {
        LineKind::Blank
    } else if let Some((k, v)) = key_value_of(t) {
        LineKind::KeyValue(k, v)
    } else if is_header(t) {
        LineKind::Header(t.subrange(1, t.len() - 1))
    } else {
        LineKind::Unparsable
    }
}

/// A line of key-value shape holds a single `=`.
pub proof fn lemma_key_value_unique(t: Seq<char>, e: int, f: int)
    requires
        key_value_at(t, e),
        0 <= f < t.len(),
        t[f] == '=',
    ensures
        f == e,
{
    if f < e {
        let x = t.take(e);
        assert(x[f] == '=');
        lemma_trim_keeps(x, f);
        let i = choose|i: int| 0 <= i < trim(x).len() && trim(x)[i] == '=';
        assert(!is_token_char(trim(x)[i]));
    } else if f > e {
        let x = t.skip(e + 1);
        assert(x[f - e - 1] == '=');
        lemma_trim_keeps(x, f - e - 1);
        let i = choose|i: int| 0 <= i < trim(x).len() && trim(x)[i] == '=';
        assert(!is_token_char(trim(x)[i]));
    }
}

/// Where the `=` at `e` splits `t` as a key-value line, `key_value_of` reads
/// that split.
pub proof fn lemma_key_value_of_at(t: Seq<char>, e: int)
    requires
        key_value_at(t, e),
    ensures
        key_value_of(t) == Some((trim(t.take(e)), trim(t.skip(e + 1)))),
{
    let c = choose|c: int| key_value_at(t, c);
    lemma_key_value_unique(t, c, e);
}

/// What the classifier found in a line, as positions in the text.
pub enum LineClass {
    Blank,
    KeyValue { key_start: usize, key_end: usize, value_start: usize, value_end: usize },
    Header { name_start: usize, name_end: usize },
    Unparsable,
}

/// `c` describes `chars[lo..hi]` as `classify` does.
pub open spec fn describes(c: LineClass, chars: Seq<char>, lo: int, hi: int) -> bool {
    match c {
        LineClass::Blank => classify(chars.subrange(lo, hi)) == LineKind::Blank,
        LineClass::KeyValue { key_start, key_end, value_start, value_end } => {
            &&& lo <= key_start <= key_end <= hi
            &&& lo <= value_start <= value_end <= hi
            &&& classify(chars.subrange(lo, hi)) == LineKind::KeyValue(
                chars.subrange(key_start as int, key_end as int),
                chars.subrange(value_start as int, value_end as int),
            )
        },
        LineClass::Header { name_start, name_end } => {
            &&& lo <= name_start <= name_end <= hi
            &&& classify(chars.subrange(lo, hi)) == LineKind::Header(
                chars.subrange(name_start as int, name_end as int),
            )
        },
        LineClass::Unparsable => classify(chars.subrange(lo, hi)) == LineKind::Unparsable,
    }
}

/// Tells whether `chars[lo..hi]` is a key or a value.
fn is_token_range(chars: &Vec<char>, lo: usize, hi: usize) -> (r: bool)
    requires
        lo <= hi <= chars@.len(),
    ensures
        r == is_token(chars@.subrange(lo as int, hi as int)),
{
    let ghost s = chars@.subrange(lo as int, hi as int);
    if lo == hi {
        return false;
    }
    let mut i: usize = lo;
    while i < hi
        invariant
            lo <= i <= hi <= chars@.len(),
            s == chars@.subrange(lo as int, hi as int),
            forall|m: int| lo <= m < i ==> is_token_char(#[trigger] chars@[m]),
        decreases hi - i,
    {
        if chars[i] == '=' || is_whitespace(chars[i]) {
            assert(!is_token_char(s[i - lo]));
            return false;
        }
        i = i + 1;
    }
    assert forall|m: int| 0 <= m < s.len() implies is_token_char(#[trigger] s[m]) by {
        assert(s[m] == chars@[m + lo]);
    }
    true
}

/// Classifies the line `chars[lo..hi]`.
pub fn classify_line(chars: &Vec<char>, lo: usize, hi: usize) -> (r: LineClass)
    requires
        lo <= hi <= chars@.len(),
    ensures
        describes(r, chars@, lo as int, hi as int),
{
    let ghost line = chars@.subrange(lo as int, hi as int);
    let (i, j) = trim_bounds(chars, lo, hi);
    let ghost t = chars@.subrange(i as int, j as int);
    if i == j {
        return LineClass::Blank;
    }
    let mut e: usize = i;
    while e < j && chars[e] != '='
        invariant
            i <= e <= j <= chars@.len(),
            forall|m: int| i <= m < e ==> chars@[m] != '=',
        decreases j - e,
    {
        e = e + 1;
    }
    if e < j {
        let (ks, ke) = trim_bounds(chars, i, e);
        let (vs, ve) = trim_bounds(chars, e + 1, j);
        assert(t.take(e - i) =~= chars@.subrange(i as int, e as int));
        assert(t.skip(e - i + 1) =~= chars@.subrange(e + 1, j as int));
        if is_token_range(chars, ks, ke) && is_token_range(chars, vs, ve) {
            proof {
                lemma_key_value_of_at(t, e - i);
            }
            return LineClass::KeyValue { key_start: ks, key_end: ke, value_start: vs, value_end: ve };
        }
        assert(!exists|f: int| key_value_at(t, f)) by {
            if exists|f: int| key_value_at(t, f) {
                let f = choose|f: int| key_value_at(t, f);
                lemma_key_value_unique(t, f, e - i);
            }
        }
    } else {
        assert(!exists|f: int| key_value_at(t, f)) by {
            if exists|f: int| key_value_at(t, f) {
                let f = choose|f: int| key_value_at(t, f);
                assert(chars@[i + f] == t[f]);
            }
        }
    }
    if j - i >= 3 && chars[i] == '[' && chars[j - 1] == ']' {
        assert(t.subrange(1, t.len() - 1) =~= chars@.subrange(i + 1, j - 1));
        LineClass::Header { name_start: i + 1, name_end: j - 1 }
    } else {
        LineClass::Unparsable
    }
}

} // verus!
