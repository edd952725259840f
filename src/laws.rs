//! Properties of parsing that relate several lines, or parsing and rendering.
use vstd::prelude::*;
use crate::grammar::{LineKind, classify, is_token, key_value_at, lemma_key_value_of_at};
use crate::models::{
    EntryView, FileModel, IniFileView, SectionView, content, entry_text, file_text, section_text,
    sections_map, sections_text,
};
use crate::parser::{ParseState, flush, initial_state, parse_lines, parse_model};
use crate::text::{is_ws, lemma_trim_end_at, lemma_trim_start_at, lines_of, split_lines, trim};

verus! {

/// Some line before line `i` of `lines` is a section header.
pub open spec fn after_header(lines: Seq<Seq<char>>, i: int) -> bool {
    exists|j: int| 0 <= j < i && #[trigger] classify(lines[j]) is Header
}

/// Every key-value line of `lines` comes after a section header.
pub open spec fn no_global_lines(lines: Seq<Seq<char>>) -> bool {
    forall|i: int|
        0 <= i < lines.len() && #[trigger] classify(lines[i]) is KeyValue ==> after_header(lines, i)
}

proof fn lemma_no_global_state(lines: Seq<Seq<char>>)
    requires
        no_global_lines(lines),
    ensures
        parse_lines(lines).file.global is None,
        parse_lines(lines).current is None ==> parse_lines(lines).entries.len() == 0,
        after_header(lines, lines.len() as int) ==> parse_lines(lines).current is Some,
    decreases lines.len(),
{
    if lines.len() > 0 {
        let t = lines.drop_last();
        let n = lines.len() - 1;
        assert forall|i: int| 0 <= i < t.len() && #[trigger] classify(t[i]) is KeyValue implies after_header(t, i) by {
            assert(t[i] == lines[i]);
            assert(after_header(lines, i));
            let j = choose|j: int| 0 <= j < i && #[trigger] classify(lines[j]) is Header;
            assert(t[j] == lines[j]);
        }
        lemma_no_global_state(t);
        if after_header(lines, lines.len() as int) {
            let j = choose|j: int| 0 <= j < lines.len() && #[trigger] classify(lines[j]) is Header;
            if j < n {
                assert(t[j] == lines[j]);
                assert(after_header(t, t.len() as int));
            }
        }
        if classify(lines[n]) is KeyValue {
            assert(after_header(lines, n));
            let j = choose|j: int| 0 <= j < n && #[trigger] classify(lines[j]) is Header;
            assert(t[j] == lines[j]);
            assert(after_header(t, t.len() as int));
        }
    }
}

/// Text whose key-value lines all come after some section header has no
/// global section.
pub proof fn lemma_no_global_section(text: Seq<char>)
    requires
        no_global_lines(lines_of(text)),
    ensures
        parse_model(text).global is None,
{
    lemma_no_global_state(lines_of(text));
}


/// `l` holds no newline.
pub open spec fn one_line(l: Seq<char>) -> bool {
    forall|i: int| 0 <= i < l.len() ==> #[trigger] l[i] != '\n'
}

/// Every key and value of `es` is a token.
pub open spec fn entries_renderable(es: SectionView) -> bool {
    forall|i: int| 0 <= i < es.len() ==> is_token(#[trigger] es[i].0) && is_token(es[i].1)
}

/// `name` stays on one line and `[name]` reads back as its header.
pub open spec fn name_renderable(name: Seq<char>) -> bool {
    one_line(name) && classify(seq!['['] + name + seq![']']) == LineKind::Header(name)
}

/// What rendering needs to read back the same: tokens for keys and values,
/// names that read back as headers, and no empty global section.
pub open spec fn renderable(v: IniFileView) -> bool {
    &&& match v.global {
        Some(g) => g.len() > 0 && entries_renderable(g),
        None => true,
    }
    &&& forall|i: int|
        0 <= i < v.sections.len() ==> name_renderable(#[trigger] v.sections[i].0)
            && entries_renderable(v.sections[i].1)
}

proof fn lemma_split_append_line(a: Seq<char>, l: Seq<char>)
    requires
        one_line(l),
    ensures
        split_lines(a + l) == (split_lines(a).0, split_lines(a).1 + l),
    decreases l.len(),
{
    if l.len() == 0 {
        assert(a + l =~= a);
        assert(split_lines(a).1 + l =~= split_lines(a).1);
    } else {
        let p = l.drop_last();
        assert forall|i: int| 0 <= i < p.len() implies #[trigger] p[i] != '\n' by {
            assert(p[i] == l[i]);
        }
        lemma_split_append_line(a, p);
        assert((a + l).drop_last() =~= a + p);
        assert(l[l.len() - 1] != '\n');
        assert((split_lines(a).1 + p).push(l.last()) =~= split_lines(a).1 + l);
    }
}

/// Appending a full line to text that ends at a line boundary closes that line.
proof fn lemma_split_push_line(a: Seq<char>, l: Seq<char>)
    requires
        one_line(l),
        split_lines(a).1 == Seq::<char>::empty(),
    ensures
        split_lines(a + l + seq!['\n']) == (split_lines(a).0.push(l), Seq::<char>::empty()),
{
    lemma_split_append_line(a, l);
    assert(Seq::<char>::empty() + l =~= l);
    assert((a + l + seq!['\n']).drop_last() =~= a + l);
}

proof fn lemma_trim_token(s: Seq<char>)
    requires
        is_token(s),
    ensures
        trim(s) == s,
{
    assert(!is_ws(s[0]));
    lemma_trim_start_at(s, 0);
    assert(s.skip(0) =~= s);
    assert(!is_ws(s[s.len() - 1]));
    lemma_trim_end_at(s, s.len() as int);
    assert(s.take(s.len() as int) =~= s);
}

proof fn lemma_classify_entry(e: EntryView)
    requires
        is_token(e.0),
        is_token(e.1),
    ensures
        classify(entry_text(e)) == LineKind::KeyValue(e.0, e.1),
        one_line(entry_text(e)),
{
    let (k, v) = e;
    let t = entry_text(e);
    let n = k.len() as int;
    assert(!is_ws(k[0]));
    assert(t[0] == k[0]);
    lemma_trim_start_at(t, 0);
    assert(t.skip(0) =~= t);
    assert(t[t.len() - 1] == v[v.len() - 1]);
    assert(!is_ws(v[v.len() - 1]));
    lemma_trim_end_at(t, t.len() as int);
    assert(t.take(t.len() as int) =~= t);
    assert(trim(t) == t);
    let x = t.take(n + 1);
    assert(x =~= k.push(' '));
    assert(x[0] == k[0]);
    lemma_trim_start_at(x, 0);
    assert(x.skip(0) =~= x);
    assert(x[n - 1] == k[n - 1]);
    assert(!is_ws(k[n - 1]));
    lemma_trim_end_at(x, n as int);
    assert(x.take(n as int) =~= k);
    assert(trim(x) == k);
    let y = t.skip(n + 2);
    assert(y =~= seq![' '] + v);
    assert(y[1] == v[0]);
    lemma_trim_start_at(y, 1);
    assert(y.skip(1) =~= v);
    lemma_trim_token(v);
    assert(trim(y) == v);
    assert(t[n + 1] == '=');
    assert(key_value_at(t, n + 1));
    lemma_key_value_of_at(t, n + 1);
    assert forall|i: int| 0 <= i < t.len() implies #[trigger] t[i] != '\n' by {
        if i < n {
            assert(t[i] == k[i]);
        } else if i >= n + 3 {
            assert(t[i] == v[i - n - 3]);
        }
    }
}

proof fn lemma_classify_blank()
    ensures
        classify(Seq::<char>::empty()) == LineKind::Blank,
{
}

/// Rendered entries after a line boundary add exactly those entries to the
/// section being read.
proof fn lemma_render_entries(a: Seq<char>, es: SectionView)
    requires
        split_lines(a).1 == Seq::<char>::empty(),
        entries_renderable(es),
    ensures
        split_lines(a + section_text(es)).1 == Seq::<char>::empty(),
        parse_lines(split_lines(a + section_text(es)).0) == (ParseState {
            entries: parse_lines(split_lines(a).0).entries + es,
            ..parse_lines(split_lines(a).0)
        }),
    decreases es.len(),
{
    if es.len() == 0 {
        assert(a + section_text(es) =~= a);
        assert(parse_lines(split_lines(a).0).entries + es =~= parse_lines(split_lines(a).0).entries);
    } else {
        let p = es.drop_last();
        let e = es.last();
        assert forall|i: int| 0 <= i < p.len() implies is_token(#[trigger] p[i].0) && is_token(
            p[i].1,
        ) by {
            assert(p[i] == es[i]);
        }
        lemma_render_entries(a, p);
        assert(is_token(es[es.len() - 1].0) && is_token(es[es.len() - 1].1));
        lemma_classify_entry(e);
        let b = a + section_text(p);
        lemma_split_push_line(b, entry_text(e));
        assert(a + section_text(es) =~= b + entry_text(e) + seq!['\n']);
        let lines = split_lines(b).0.push(entry_text(e));
        assert(lines.drop_last() =~= split_lines(b).0);
        assert(parse_lines(split_lines(a).0).entries + p.push(e) =~= (parse_lines(
            split_lines(a).0,
        ).entries + p).push(e));
        assert(p.push(e) =~= es);
    }
}

/// Rendered sections after a line boundary, read from a state outside any
/// named section and with none installed, install exactly those sections.
proof fn lemma_render_sections(a: Seq<char>, ss: Seq<(Seq<char>, SectionView)>)
    requires
        split_lines(a).1 == Seq::<char>::empty(),
        parse_lines(split_lines(a).0).current is None,
        parse_lines(split_lines(a).0).file.sections == Map::<Seq<char>, SectionView>::empty(),
        forall|i: int|
            0 <= i < ss.len() ==> name_renderable(#[trigger] ss[i].0) && entries_renderable(
                ss[i].1,
            ),
    ensures
        split_lines(a + sections_text(ss)).1 == Seq::<char>::empty(),
        ({
            let st0 = parse_lines(split_lines(a).0);
            let st = parse_lines(split_lines(a + sections_text(ss)).0);
            flush(st.file, st.current, st.entries) == (FileModel {
                global: flush(st0.file, st0.current, st0.entries).global,
                sections: sections_map(ss),
            })
        }),
    decreases ss.len(),
{
    let st0 = parse_lines(split_lines(a).0);
    if ss.len() == 0 {
        assert(a + sections_text(ss) =~= a);
        assert(flush(st0.file, st0.current, st0.entries).sections =~= sections_map(ss));
    } else {
        let p = ss.drop_last();
        let (name, es) = ss.last();
        assert forall|i: int| 0 <= i < p.len() implies name_renderable(#[trigger] p[i].0)
            && entries_renderable(p[i].1) by {
            assert(p[i] == ss[i]);
        }
        lemma_render_sections(a, p);
        assert(name_renderable(ss[ss.len() - 1].0) && entries_renderable(ss[ss.len() - 1].1));
        let b = a + sections_text(p);
        let h = seq!['['] + name + seq![']'];
        assert forall|i: int| 0 <= i < h.len() implies #[trigger] h[i] != '\n' by {
            if 0 < i < h.len() - 1 {
                assert(h[i] == name[i - 1]);
            }
        }
        lemma_split_push_line(b, h);
        let c = b + h + seq!['\n'];
        let hl = split_lines(b).0.push(h);
        assert(hl.drop_last() =~= split_lines(b).0);
        lemma_render_entries(c, es);
        assert(a + sections_text(ss) =~= c + section_text(es));
        assert(Seq::<EntryView>::empty() + es =~= es);
    }
}

/// Rendering a file and parsing the text back gives the file's content again.
pub proof fn lemma_round_trip(v: IniFileView)
    requires
        renderable(v),
    ensures
        parse_model(file_text(v)) == content(v),
{
    let e = Seq::<char>::empty();
    assert(split_lines(e) == (Seq::<Seq<char>>::empty(), e));
    assert(parse_lines(Seq::<Seq<char>>::empty()) == initial_state());
    let a = match v.global {
        Some(g) => section_text(g) + seq!['\n'],
        None => e,
    };
    match v.global {
        Some(g) => {
            lemma_render_entries(e, g);
            assert(e + section_text(g) =~= section_text(g));
            let b = section_text(g);
            assert((b + seq!['\n']).drop_last() =~= b);
            lemma_classify_blank();
            let bl = split_lines(b).0.push(e);
            assert(bl.drop_last() =~= split_lines(b).0);
            assert(Seq::<EntryView>::empty() + g =~= g);
        },
        None => {},
    }
    lemma_render_sections(a, v.sections);
    let text = file_text(v);
    assert(text =~= a + sections_text(v.sections));
    lemma_classify_blank();
    assert(lines_of(text).drop_last() =~= split_lines(text).0);
}


/// The entries that the key-value lines of `lines` carry, in order.
pub open spec fn entries_of(lines: Seq<Seq<char>>) -> SectionView
    decreases lines.len(),
{
    if lines.len() == 0 {
        seq![]
    } else {
        let p = entries_of(lines.drop_last());
        match classify(lines.last()) {
            LineKind::KeyValue(k, v) => p.push((k, v)),
            _ => p,
        }
    }
}

/// The body of the last `[n]` header runs from line `k + 1` up to the next
/// header at `m` (or the end).
pub open spec fn last_body(lines: Seq<Seq<char>>, n: Seq<char>, k: int, m: int) -> bool {
    &&& 0 <= k < m <= lines.len()
    &&& classify(lines[k]) == LineKind::Header(n)
    &&& forall|j: int| k < j < lines.len() ==> #[trigger] classify(lines[j]) != LineKind::Header(n)
    &&& forall|j: int| k < j < m ==> !(#[trigger] classify(lines[j]) is Header)
    &&& m < lines.len() ==> classify(lines[m]) is Header
}

spec fn body_state(lines: Seq<Seq<char>>, n: Seq<char>, k: int, m: int, j: int) -> bool {
    let st = parse_lines(lines.take(j));
    if j <= m {
        st.current == Some(n) && st.entries == entries_of(lines.subrange(k + 1, j))
    } else {
        &&& st.file.sections.contains_key(n)
        &&& st.file.sections[n] == entries_of(lines.subrange(k + 1, m))
        &&& st.current is Some
        &&& st.current->0 != n
    }
}

proof fn lemma_body_state(lines: Seq<Seq<char>>, n: Seq<char>, k: int, m: int, j: int)
    requires
        last_body(lines, n, k, m),
        k < j <= lines.len(),
    ensures
        body_state(lines, n, k, m, j),
    decreases j,
{
    assert(lines.take(j).drop_last() =~= lines.take(j - 1));
    assert(lines.take(j).last() == lines[j - 1]);
    if j == k + 1 {
        assert(lines.subrange(k + 1, j) =~= Seq::<Seq<char>>::empty());
    } else {
        lemma_body_state(lines, n, k, m, j - 1);
        let line = lines[j - 1];
        assert(classify(line) != LineKind::Header(n));
        if j <= m {
            assert(!(classify(line) is Header));
            assert(lines.subrange(k + 1, j).drop_last() =~= lines.subrange(k + 1, j - 1));
            assert(lines.subrange(k + 1, j).last() == line);
        }
    }
}

/// The last declaration of a section name wins: the section named `n` holds
/// exactly the entries of the body under the last `[n]` header, whatever
/// earlier declarations of `n` held.
pub proof fn lemma_last_section_wins(text: Seq<char>, n: Seq<char>, k: int, m: int)
    requires
        last_body(lines_of(text), n, k, m),
    ensures
        parse_model(text).sections.contains_key(n),
        parse_model(text).sections[n] == entries_of(lines_of(text).subrange(k + 1, m)),
{
    let lines = lines_of(text);
    lemma_body_state(lines, n, k, m, lines.len() as int);
    assert(lines.take(lines.len() as int) =~= lines);
}

} // verus!
