//! The full parser and the direct lookup scanner, with the models that say
//! what each computes from the text.
use vstd::prelude::*;
use crate::builders::{IniFileBuilder, IniSectionBuilder};
use crate::grammar::{LineClass, LineKind, classify, classify_line};
use crate::models::{
    FileModel, IniEntry, IniFile, SectionId, SectionView, content, names_unique, str_opt_view,
};
use crate::text::{chars_of, lines_of, split_lines, string_of};

verus! {

/// A defect of the grammar itself: a line matched a pattern whose parts could
/// then not be read. The scanners here never report it.
#[derive(Debug)]
pub enum ParseError {
    GrammarDefect(String),
}

/// Where the full parser stands between two lines: the file so far, the id of
/// the section being read (`None` for global), and that section's entries.
pub struct ParseState {
    pub file: FileModel,
    pub current: Option<Seq<char>>,
    pub entries: SectionView,
}

/// Hands a finished section to the file. An empty global section is dropped;
/// a named section is installed even when empty, replacing one of that name.
pub open spec fn flush(file: FileModel, id: Option<Seq<char>>, entries: SectionView) -> FileModel {
    match id {
        None => if entries.len() == 0 {
            file
        } else {
            FileModel { global: Some(entries), ..file }
        },
        Some(name) => FileModel { sections: file.sections.insert(name, entries), ..file },
    }
}

/// The state before the first line: nothing read, in the global section.
pub open spec fn initial_state() -> ParseState {
    ParseState {
        file: FileModel { global: None, sections: Map::empty() },
        current: None,
        entries: seq![],
    }
}

/// The full parser's move on one line.
pub open spec fn parse_step(st: ParseState, line: Seq<char>) -> ParseState {
    match classify(line) {
        LineKind::KeyValue(k, v) => ParseState { entries: st.entries.push((k, v)), ..st },
        LineKind::Header(n) => ParseState {
            file: flush(st.file, st.current, st.entries),
            current: Some(n),
            entries: seq![],
        },
        _ => st,
    }
}

/// The state after reading `lines` in order.
pub open spec fn parse_lines(lines: Seq<Seq<char>>) -> ParseState
    decreases lines.len(),
{
    if lines.len() == 0 {
        initial_state()
    } else {
        parse_step(parse_lines(lines.drop_last()), lines.last())
    }
}

/// The file that `text` describes.
pub open spec fn parse_model(text: Seq<char>) -> FileModel {
    let st = parse_lines(lines_of(text));
    flush(st.file, st.current, st.entries)
}

/// Where the lookup scanner stands: still searching (inside the target
/// section or not), or done with an answer.
pub enum FindState {
    Searching(bool),
    Done(Option<Seq<char>>),
}

/// The lookup scanner's move on one line. Without a target section every
/// key-value line is a candidate; with one, only those after its header, and
/// the next header ends the search.
pub open spec fn find_step(
    st: FindState,
    line: Seq<char>,
    key: Seq<char>,
    target: Option<Seq<char>>,
) -> FindState {
    match st {
        FindState::Done(_) => st,
        FindState::Searching(inside) => match classify(line) {
            LineKind::KeyValue(k, v) => if (target is None || inside) && k == key {
                FindState::Done(Some(v))
            } else {
                st
            },
            LineKind::Header(n) => match target {
                Some(name) => if inside {
                    FindState::Done(None)
                } else {
                    FindState::Searching(n == name)
                },
                None => st,
            },
            _ => st,
        },
    }
}

/// The scanner's state after reading `lines` in order.
pub open spec fn find_lines(lines: Seq<Seq<char>>, key: Seq<char>, target: Option<Seq<char>>) -> FindState
    decreases lines.len(),
{
    if lines.len() == 0 {
        FindState::Searching(false)
    } else {
        find_step(find_lines(lines.drop_last(), key, target), lines.last(), key, target)
    }
}

/// The value that a lookup of `key` (in `target`, or anywhere) finds in `text`.
pub open spec fn find_model(text: Seq<char>, key: Seq<char>, target: Option<Seq<char>>) -> Option<
    Seq<char>,
> {
    match find_lines(lines_of(text), key, target) {
        FindState::Done(r) => r,
        FindState::Searching(_) => None,
    }
}

/// The view of an optional string.
pub open spec fn string_opt_view(s: Option<String>) -> Option<Seq<char>> {
    match s {
        Some(s) => Some(s@),
        None => None,
    }
}

/// The parser's state, read off its two builders.
pub open spec fn state_of(fb: IniFileBuilder, sb: IniSectionBuilder) -> ParseState {
    ParseState { file: content(fb@), current: sb@.0, entries: sb@.1 }
}

/// Closed lines of a prefix of `s` stay closed lines of any longer prefix.
pub proof fn lemma_lines_prefix(s: Seq<char>, i: int, j: int)
    requires
        0 <= i <= j <= s.len(),
    ensures
        split_lines(s.take(i)).0.len() <= split_lines(s.take(j)).0.len(),
        split_lines(s.take(j)).0.take(split_lines(s.take(i)).0.len() as int) == split_lines(
            s.take(i),
        ).0,
    decreases j - i,
{
    let a = split_lines(s.take(i)).0;
    if i == j {
        assert(a.take(a.len() as int) =~= a);
    } else {
        lemma_lines_prefix(s, i, j - 1);
        assert(s.take(j).drop_last() =~= s.take(j - 1));
        let b = split_lines(s.take(j - 1)).0;
        let c = split_lines(s.take(j)).0;
        assert(c.take(a.len() as int) =~= b.take(a.len() as int));
    }
}

/// Once the scanner is done, further lines leave its answer alone.
pub proof fn lemma_find_done(
    lines: Seq<Seq<char>>,
    m: int,
    key: Seq<char>,
    target: Option<Seq<char>>,
)
    requires
        0 <= m <= lines.len(),
        find_lines(lines.take(m), key, target) is Done,
    ensures
        find_lines(lines, key, target) == find_lines(lines.take(m), key, target),
    decreases lines.len(),
{
    if m == lines.len() {
        assert(lines.take(m) =~= lines);
    } else {
        assert(lines.drop_last().take(m) =~= lines.take(m));
        lemma_find_done(lines.drop_last(), m, key, target);
    }
}

/// Hands the section that `current_section_builder` holds to the file, by the
/// rule of `flush`.
pub fn add_section_to_ini_builder(
    ini_file_builder: IniFileBuilder,
    current_section_builder: IniSectionBuilder,
) -> (r: IniFileBuilder)
    ensures
        content(r@) == flush(
            content(ini_file_builder@),
            current_section_builder@.0,
            current_section_builder@.1,
        ),
        names_unique(ini_file_builder@.sections) ==> names_unique(r@.sections),
{
    let (id, section) = current_section_builder.build();
    match id {
        SectionId::Global => {
            if section.entries.len() > 0 {
                ini_file_builder.set_global_section(section)
            } else {
                ini_file_builder
            }
        },
        SectionId::Named(name) => {
            let r = ini_file_builder.new_section(name.as_str(), section);
            assert(content(r@).sections == content(ini_file_builder@).sections.insert(
                name@,
                section@,
            ));
            r
        },
    }
}

/// The full parser's move on the line `chars[lo..hi]`.
fn parse_line(
    fb: IniFileBuilder,
    sb: IniSectionBuilder,
    chars: &Vec<char>,
    lo: usize,
    hi: usize,
) -> (r: (IniFileBuilder, IniSectionBuilder))
    requires
        lo <= hi <= chars@.len(),
    ensures
        state_of(r.0, r.1) == parse_step(state_of(fb, sb), chars@.subrange(lo as int, hi as int)),
        names_unique(fb@.sections) ==> names_unique(r.0@.sections),
{
    let c = classify_line(chars, lo, hi);
    match c {
        LineClass::KeyValue { key_start, key_end, value_start, value_end } => {
            let key = string_of(chars, key_start, key_end);
            let value = string_of(chars, value_start, value_end);
            (fb, sb.add_entry(IniEntry { key, value }))
        },
        LineClass::Header { name_start, name_end } => {
            let fb = add_section_to_ini_builder(fb, sb);
            let name = string_of(chars, name_start, name_end);
            (fb, IniSectionBuilder::new(SectionId::Named(name)))
        },
        _ => (fb, sb),
    }
}

/// Parses `ini_string` into a file. Blank and unparsable lines are skipped;
/// entries go to the section whose header precedes them, or to the global
/// section. Parsing always succeeds.
pub fn parse(ini_string: &str) -> (r: Result<IniFile, ParseError>)
    ensures
        r is Ok,
        content(r->Ok_0@) == parse_model(ini_string@),
        names_unique(r->Ok_0@.sections),
{
    let chars = chars_of(ini_string);
    let ghost s = chars@;
    let mut fb = IniFileBuilder::new();
    let mut sb = IniSectionBuilder::new(SectionId::Global);
    assert(content(fb@).sections =~= Map::empty());
    assert(s.take(0) =~= seq![]);
    let mut start: usize = 0;
    let mut i: usize = 0;
    while i < chars.len()
        invariant
            s == chars@,
            start <= i <= chars@.len(),
            split_lines(s.take(i as int)).1 == s.subrange(start as int, i as int),
            state_of(fb, sb) == parse_lines(split_lines(s.take(i as int)).0),
            names_unique(fb@.sections),
        decreases chars@.len() - i,
    {
        assert(s.take(i + 1).drop_last() =~= s.take(i as int));
        if chars[i] == '\n' {
            let (f2, s2) = parse_line(fb, sb, &chars, start, i);
            fb = f2;
            sb = s2;
            start = i + 1;
            assert(split_lines(s.take(i + 1)).0.drop_last() =~= split_lines(s.take(i as int)).0);
            assert(s.subrange(i + 1, i + 1) =~= seq![]);
        } else {
            assert(s.subrange(start as int, i + 1) =~= s.subrange(start as int, i as int).push(
                s[i as int],
            ));
        }
        i = i + 1;
    }
    assert(s.take(i as int) =~= s);
    let (f2, s2) = parse_line(fb, sb, &chars, start, i);
    assert(lines_of(s).drop_last() =~= split_lines(s).0);
    let fb = add_section_to_ini_builder(f2, s2);
    Ok(fb.build())
}

/// Tells whether `chars[lo..hi]` is `other`.
fn range_eq(chars: &Vec<char>, lo: usize, hi: usize, other: &Vec<char>) -> (r: bool)
    requires
        lo <= hi <= chars@.len(),
    ensures
        r == (chars@.subrange(lo as int, hi as int) == other@),
{
    if hi - lo != other.len() {
        return false;
    }
    let mut i: usize = 0;
    while i < other.len()
        invariant
            lo <= hi <= chars@.len(),
            hi - lo == other@.len(),
            0 <= i <= other@.len(),
            forall|m: int| 0 <= m < i ==> chars@[lo + m] == #[trigger] other@[m],
        decreases other@.len() - i,
    {
        if chars[lo + i] != other[i] {
            assert(chars@.subrange(lo as int, hi as int)[i as int] != other@[i as int]);
            return false;
        }
        i = i + 1;
    }
    assert(chars@.subrange(lo as int, hi as int) =~= other@);
    true
}

/// Where the scanner stands, as the code holds it.
enum Scan {
    Searching(bool),
    Done(Option<String>),
}

spec fn scan_view(s: Scan) -> FindState {
    match s {
        Scan::Searching(b) => FindState::Searching(b),
        Scan::Done(r) => FindState::Done(string_opt_view(r)),
    }
}

/// The lookup scanner's move on the line `chars[lo..hi]`, while searching.
fn find_line(
    chars: &Vec<char>,
    lo: usize,
    hi: usize,
    key: &Vec<char>,
    target: &Option<Vec<char>>,
    inside: bool,
) -> (r: Scan)
    requires
        lo <= hi <= chars@.len(),
    ensures
        scan_view(r) == find_step(
            FindState::Searching(inside),
            chars@.subrange(lo as int, hi as int),
            key@,
            match target {
                Some(t) => Some(t@),
                None => None,
            },
        ),
{
    let c = classify_line(chars, lo, hi);
    match c {
        LineClass::KeyValue { key_start, key_end, value_start, value_end } => {
            if (target.is_none() || inside) && range_eq(chars, key_start, key_end, key) {
                Scan::Done(Some(string_of(chars, value_start, value_end)))
            } else {
                Scan::Searching(inside)
            }
        },
        LineClass::Header { name_start, name_end } => match target {
            Some(name) => {
                if inside {
                    Scan::Done(None)
                } else {
                    Scan::Searching(range_eq(chars, name_start, name_end, name))
                }
            },
            None => Scan::Searching(inside),
        },
        _ => Scan::Searching(inside),
    }
}

/// Looks up `key_to_find` in one pass over `ini_string`, without building a
/// file. With a section name, only that section's lines are searched and the
/// next header ends the search; without one, the first entry with that key
/// anywhere in the text answers. The lookup always succeeds; `None` means
/// the key was not found.
pub fn find(ini_string: &str, key_to_find: &str, section_to_find: Option<&str>) -> (r: Result<
    Option<String>,
    ParseError,
>)
    ensures
        r is Ok,
        string_opt_view(r->Ok_0) == find_model(
            ini_string@,
            key_to_find@,
            str_opt_view(section_to_find),
        ),
{
    let chars = chars_of(ini_string);
    let key = chars_of(key_to_find);
    let target = match section_to_find {
        Some(t) => Some(chars_of(t)),
        None => None,
    };
    let ghost s = chars@;
    let ghost tv = str_opt_view(section_to_find);
    assert(tv == match target {
        Some(t) => Some(t@),
        None => None::<Seq<char>>,
    });
    let mut inside = false;
    assert(s.take(0) =~= seq![]);
    let mut start: usize = 0;
    let mut i: usize = 0;
    while i < chars.len()
        invariant
            s == chars@,
            s == ini_string@,
            key@ == key_to_find@,
            tv == match target {
                Some(t) => Some(t@),
                None => None::<Seq<char>>,
            },
            tv == str_opt_view(section_to_find),
            start <= i <= chars@.len(),
            split_lines(s.take(i as int)).1 == s.subrange(start as int, i as int),
            find_lines(split_lines(s.take(i as int)).0, key@, tv) == FindState::Searching(inside),
        decreases chars@.len() - i,
    {
        assert(s.take(i + 1).drop_last() =~= s.take(i as int));
        if chars[i] == '\n' {
            let step = find_line(&chars, start, i, &key, &target, inside);
            assert(split_lines(s.take(i + 1)).0.drop_last() =~= split_lines(s.take(i as int)).0);
            assert(split_lines(s.take(i + 1)).0.last() == s.subrange(start as int, i as int));
            assert(find_lines(split_lines(s.take(i + 1)).0, key@, tv) == scan_view(step));
            match step {
                Scan::Done(r) => {
                    proof {
                        let done = split_lines(s.take(i + 1)).0;
                        lemma_lines_prefix(s, i + 1, s.len() as int);
                        assert(s.take(s.len() as int) =~= s);
                        let all = lines_of(s);
                        assert(split_lines(s).0.take(done.len() as int) == done);
                        assert(all.take(done.len() as int) =~= done);
                        lemma_find_done(all, done.len() as int, key@, tv);
                        assert(find_lines(all, key@, tv) == FindState::Done(string_opt_view(r)));
                    }
                    return Ok(r);
                },
                Scan::Searching(b) => {
                    inside = b;
                },
            }
            start = i + 1;
            assert(s.subrange(i + 1, i + 1) =~= seq![]);
        } else {
            assert(s.subrange(start as int, i + 1) =~= s.subrange(start as int, i as int).push(
                s[i as int],
            ));
        }
        i = i + 1;
    }
    assert(s.take(i as int) =~= s);
    assert(lines_of(s).drop_last() =~= split_lines(s).0);
    match find_line(&chars, start, i, &key, &target, inside) {
        Scan::Done(r) => Ok(r),
        Scan::Searching(_) => Ok(None),
    }
}

/// The positions, in order, of the unparsable lines among `lines`.
pub open spec fn unparsable_indices(lines: Seq<Seq<char>>) -> Seq<int>
    decreases lines.len(),
{
    if lines.len() == 0 {
        seq![]
    } else {
        let p = unparsable_indices(lines.drop_last());
        if classify(lines.last()) is Unparsable {
            p.push(lines.len() - 1)
        } else {
            p
        }
    }
}

/// The line numbers (from 0) of the lines of `ini_string` that are neither
/// blank, nor key-value, nor a section header: those that parsing skips.
pub fn unparsable_lines(ini_string: &str) -> (r: Vec<usize>)
    ensures
        r@.map_values(|i: usize| i as int) == unparsable_indices(lines_of(ini_string@)),
{
    let chars = chars_of(ini_string);
    let ghost s = chars@;
    let mut r: Vec<usize> = Vec::new();
    assert(s.take(0) =~= seq![]);
    assert(r@.map_values(|i: usize| i as int) =~= seq![]);
    let mut start: usize = 0;
    let mut line_no: usize = 0;
    let mut i: usize = 0;
    while i < chars.len()
        invariant
            s == chars@,
            start <= i <= chars@.len(),
            line_no <= i,
            split_lines(s.take(i as int)).1 == s.subrange(start as int, i as int),
            line_no == split_lines(s.take(i as int)).0.len(),
            r@.map_values(|i: usize| i as int) == unparsable_indices(split_lines(s.take(i as int)).0),
        decreases chars@.len() - i,
    {
        assert(s.take(i + 1).drop_last() =~= s.take(i as int));
        if chars[i] == '\n' {
            let ghost before = r@;
            if let LineClass::Unparsable = classify_line(&chars, start, i) {
                r.push(line_no);
                assert(r@.map_values(|i: usize| i as int) =~= before.map_values(|i: usize| i as int).push(
                    line_no as int,
                ));
            }
            assert(split_lines(s.take(i + 1)).0.drop_last() =~= split_lines(s.take(i as int)).0);
            line_no = line_no + 1;
            start = i + 1;
            assert(s.subrange(i + 1, i + 1) =~= seq![]);
        } else {
            assert(s.subrange(start as int, i + 1) =~= s.subrange(start as int, i as int).push(
                s[i as int],
            ));
        }
        i = i + 1;
    }
    assert(s.take(i as int) =~= s);
    assert(lines_of(s).drop_last() =~= split_lines(s).0);
    let ghost before = r@;
    if let LineClass::Unparsable = classify_line(&chars, start, i) {
        r.push(line_no);
        assert(r@.map_values(|i: usize| i as int) =~= before.map_values(|i: usize| i as int).push(
            line_no as int,
        ));
    }
    r
}

} // verus!
