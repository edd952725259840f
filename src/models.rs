//! The parsed data: entries, sections, and the file that holds them.
use vstd::prelude::*;
use crate::text::push_char;

verus! {

/// A key and its value.
pub type EntryView = (Seq<char>, Seq<char>);

/// The entries of a section, in order of insertion.
pub type SectionView = Seq<EntryView>;

/// One `key = value` pair.
pub struct IniEntry {
    pub key: String,
    pub value: String,
}

impl View for IniEntry {
    type V = EntryView;

    open spec fn view(&self) -> EntryView {
        (self.key@, self.value@)
    }
}

/// An entry rendered as `key = value`.
pub open spec fn entry_text(e: EntryView) -> Seq<char> {
    e.0 + seq![' ', '=', ' '] + e.1
}

/// `s` with `t` appended.
fn append(s: &mut String, t: &String)
    ensures
        final(s)@ == old(s)@ + t@,
{
    s.append(t.as_str());
}

impl IniEntry {
    /// The entry as `key = value`.
    pub fn to_string(&self) -> (r: String)
        ensures
            r@ == entry_text(self@),
    {
        let mut r = self.key.clone();
        push_char(&mut r, ' ');
        push_char(&mut r, '=');
        push_char(&mut r, ' ');
        append(&mut r, &self.value);
        assert(r@ =~= entry_text(self@));
        r
    }
}

/// The value of the first entry of `es` whose key is `key`.
pub open spec fn value_by_key(es: SectionView, key: Seq<char>) -> Option<Seq<char>>
    decreases es.len(),
{
    if es.len() == 0 {
        None
    } else if es[0].0 == key {
        Some(es[0].1)
    } else {
        value_by_key(es.drop_first(), key)
    }
}

/// A section rendered as text: one line per entry, each ended by a newline.
pub open spec fn section_text(es: SectionView) -> Seq<char>
    decreases es.len(),
{
    if es.len() == 0 {
        seq![]
    } else {
        section_text(es.drop_last()) + entry_text(es.last()) + seq!['\n']
    }
}

/// An ordered run of entries.
pub struct IniSection {
    pub entries: Vec<IniEntry>,
}

impl View for IniSection {
    type V = SectionView;

    open spec fn view(&self) -> SectionView {
        self.entries@.map_values(|e: IniEntry| e@)
    }
}

/// The view of an optional borrowed section.
pub open spec fn section_opt_view(s: Option<&IniSection>) -> Option<SectionView> {
    match s {
        Some(s) => Some(s@),
        None => None,
    }
}

/// The view of an optional borrowed string.
pub open spec fn str_opt_view(s: Option<&str>) -> Option<Seq<char>> {
    match s {
        Some(s) => Some(s@),
        None => None,
    }
}

impl IniSection {
    /// A section with no entries.
    pub fn new() -> (r: IniSection)
        ensures
            r@ == Seq::<EntryView>::empty(),
    {
        let r = IniSection { entries: Vec::new() };
        assert(r@ =~= Seq::<EntryView>::empty());
        r
    }

    /// The value of the first entry whose key is `key`; later entries with the
    /// same key are not reached.
    pub fn get_value_by_key(&self, key: &str) -> (r: Option<&str>)
        ensures
            str_opt_view(r) == value_by_key(self@, key@),
    {
        let k = String::from_str(key);
        let mut i: usize = 0;
        assert(self@.skip(0) =~= self@);
        while i < self.entries.len()
            invariant
                0 <= i <= self.entries@.len(),
                k@ == key@,
                value_by_key(self@, key@) == value_by_key(self@.skip(i as int), key@),
            decreases self.entries@.len() - i,
        {
            let ghost rest = self@.skip(i as int);
            assert(rest[0] == self.entries@[i as int]@);
            if self.entries[i].key == k {
                return Some(self.entries[i].value.as_str());
            }
            assert(rest.drop_first() =~= self@.skip(i + 1));
            i = i + 1;
        }
        None
    }

    /// The section as text, one `key = value` line per entry.
    pub fn to_string(&self) -> (r: String)
        ensures
            r@ == section_text(self@),
    {
        let mut r = String::new();
        let mut i: usize = 0;
        while i < self.entries.len()
            invariant
                0 <= i <= self.entries@.len(),
                r@ == section_text(self@.take(i as int)),
            decreases self.entries@.len() - i,
        {
            let line = self.entries[i].to_string();
            append(&mut r, &line);
            push_char(&mut r, '\n');
            assert(self@.take(i + 1).drop_last() =~= self@.take(i as int));
            i = i + 1;
        }
        assert(self@.take(i as int) =~= self@);
        r
    }
}

/// Which section a run of entries belongs to.
pub enum SectionId {
    Global,
    Named(String),
}

impl View for SectionId {
    /// `None` for the global section, else the section's name.
    type V = Option<Seq<char>>;

    open spec fn view(&self) -> Option<Seq<char>> {
        match self {
            SectionId::Global => None,
            SectionId::Named(n) => Some(n@),
        }
    }
}

/// A file as it is stored: the global section, and the named sections in the
/// order their names first came.
pub struct IniFileView {
    pub global: Option<SectionView>,
    pub sections: Seq<(Seq<char>, SectionView)>,
}

/// What a file holds: the global section, and a section for each name.
pub struct FileModel {
    pub global: Option<SectionView>,
    pub sections: Map<Seq<char>, SectionView>,
}

/// The map from name to section; where a name occurs twice, the later wins.
pub open spec fn sections_map(ss: Seq<(Seq<char>, SectionView)>) -> Map<Seq<char>, SectionView>
    decreases ss.len(),
{
    if ss.len() == 0 {
        Map::empty()
    } else {
        sections_map(ss.drop_last()).insert(ss.last().0, ss.last().1)
    }
}

/// What the file `v` holds.
pub open spec fn content(v: IniFileView) -> FileModel {
    FileModel { global: v.global, sections: sections_map(v.sections) }
}

/// The named sections rendered as text: each as a `[name]` line followed by
/// its entries.
pub open spec fn sections_text(ss: Seq<(Seq<char>, SectionView)>) -> Seq<char>
    decreases ss.len(),
{
    if ss.len() == 0 {
        seq![]
    } else {
        sections_text(ss.drop_last()) + seq!['['] + ss.last().0 + seq![']', '\n'] + section_text(
            ss.last().1,
        )
    }
}

/// A file rendered as text: the global entries and an empty line, if there is
/// a global section, then the named sections.
pub open spec fn file_text(v: IniFileView) -> Seq<char> {
    match v.global {
        Some(g) => section_text(g) + seq!['\n'] + sections_text(v.sections),
        None => sections_text(v.sections),
    }
}

/// `i` is the last position in `ss` that holds the name `k`.
pub open spec fn last_named(ss: Seq<(Seq<char>, SectionView)>, k: Seq<char>, i: int) -> bool {
    &&& 0 <= i < ss.len()
    &&& ss[i].0 == k
    &&& forall|j: int| i < j < ss.len() ==> #[trigger] ss[j].0 != k
}

/// No two stored sections share a name.
pub open spec fn names_unique(ss: Seq<(Seq<char>, SectionView)>) -> bool {
    forall|i: int, j: int| 0 <= i < j < ss.len() ==> #[trigger] ss[i].0 != #[trigger] ss[j].0
}

/// `ss` with `s` stored under `name`: in place of the section at the position
/// that holds `name` (the last one, should there be several), else appended.
pub open spec fn insert_named(
    ss: Seq<(Seq<char>, SectionView)>,
    name: Seq<char>,
    s: SectionView,
) -> Seq<(Seq<char>, SectionView)> {
    if exists|i: int| last_named(ss, name, i) {
        ss.update(choose|i: int| last_named(ss, name, i), (name, s))
    } else {
        ss.push((name, s))
    }
}

pub proof fn lemma_last_named_unique(ss: Seq<(Seq<char>, SectionView)>, k: Seq<char>, i: int, j: int)
    requires
        last_named(ss, k, i),
        last_named(ss, k, j),
    ensures
        i == j,
{
}

pub proof fn lemma_sections_map_absent(ss: Seq<(Seq<char>, SectionView)>, k: Seq<char>)
    requires
        forall|j: int| 0 <= j < ss.len() ==> #[trigger] ss[j].0 != k,
    ensures
        !sections_map(ss).contains_key(k),
    decreases ss.len(),
{
    if ss.len() > 0 {
        let t = ss.drop_last();
        assert(ss[ss.len() - 1].0 != k);
        assert forall|j: int| 0 <= j < t.len() implies #[trigger] t[j].0 != k by {
            assert(t[j] == ss[j]);
        }
        lemma_sections_map_absent(t, k);
    }
}

pub proof fn lemma_sections_map_last(ss: Seq<(Seq<char>, SectionView)>, k: Seq<char>, i: int)
    requires
        last_named(ss, k, i),
    ensures
        sections_map(ss).contains_key(k),
        sections_map(ss)[k] == ss[i].1,
    decreases ss.len(),
{
    if i < ss.len() - 1 {
        let t = ss.drop_last();
        assert(ss[ss.len() - 1].0 != k);
        assert forall|j: int| i < j < t.len() implies #[trigger] t[j].0 != k by {
            assert(t[j] == ss[j]);
        }
        lemma_sections_map_last(t, k, i);
    }
}

pub proof fn lemma_sections_map_update(
    ss: Seq<(Seq<char>, SectionView)>,
    k: Seq<char>,
    i: int,
    s: SectionView,
)
    requires
        last_named(ss, k, i),
    ensures
        sections_map(ss.update(i, (k, s))) == sections_map(ss).insert(k, s),
    decreases ss.len(),
{
    let u = ss.update(i, (k, s));
    let t = ss.drop_last();
    if i == ss.len() - 1 {
        assert(u.drop_last() =~= t);
        assert(sections_map(u) =~= sections_map(ss).insert(k, s));
    } else {
        assert(ss[ss.len() - 1].0 != k);
        assert forall|j: int| i < j < t.len() implies #[trigger] t[j].0 != k by {
            assert(t[j] == ss[j]);
        }
        lemma_sections_map_update(t, k, i, s);
        assert(u.drop_last() =~= t.update(i, (k, s)));
        assert(sections_map(u) =~= sections_map(ss).insert(k, s));
    }
}

/// A parsed file: an optional global section and sections by name.
pub struct IniFile {
    pub(crate) global_section: Option<IniSection>,
    pub(crate) sections: Vec<(String, IniSection)>,
}

impl View for IniFile {
    type V = IniFileView;

    closed spec fn view(&self) -> IniFileView {
        IniFileView {
            global: match self.global_section {
                Some(g) => Some(g@),
                None => None,
            },
            sections: self.sections@.map_values(|p: (String, IniSection)| (p.0@, p.1@)),
        }
    }
}

impl IniFile {
    /// A file with no sections at all.
    pub(crate) fn empty() -> (r: IniFile)
        ensures
            r@ == (IniFileView { global: None, sections: seq![] }),
    {
        let r = IniFile { global_section: None, sections: Vec::new() };
        assert(r@.sections =~= seq![]);
        r
    }

    /// Installs `section` as the global section.
    pub(crate) fn set_global(&mut self, section: IniSection)
        ensures
            final(self)@ == (IniFileView { global: Some(section@), ..old(self)@ }),
    {
        self.global_section = Some(section);
    }

    /// Installs `section` under `name`, in place of any section of that name.
    pub(crate) fn insert_section(&mut self, name: String, section: IniSection)
        ensures
            final(self)@.global == old(self)@.global,
            final(self)@.sections == insert_named(old(self)@.sections, name@, section@),
            sections_map(final(self)@.sections) == sections_map(old(self)@.sections).insert(
                name@,
                section@,
            ),
            names_unique(old(self)@.sections) ==> names_unique(final(self)@.sections),
    {
        let ghost ss = self@.sections;
        let mut i: usize = self.sections.len();
        while i > 0 && !(self.sections[i - 1].0 == name)
            invariant
                i <= self.sections@.len(),
                self@.sections == ss,
                forall|j: int| i <= j < ss.len() ==> #[trigger] ss[j].0 != name@,
            decreases i,
        {
            i = i - 1;
        }
        if i > 0 {
            proof {
                lemma_sections_map_update(ss, name@, i - 1, section@);
                let c = choose|c: int| last_named(ss, name@, c);
                lemma_last_named_unique(ss, name@, c, i - 1);
            }
            self.sections.set(i - 1, (name, section));
            assert(self@.sections =~= ss.update(i - 1, (name@, section@)));
            assert(names_unique(ss) ==> names_unique(self@.sections)) by {
                if names_unique(ss) {
                    let u = self@.sections;
                    assert forall|a: int, b: int| 0 <= a < b < u.len() implies #[trigger] u[a].0
                        != #[trigger] u[b].0 by {
                        if a == i - 1 {
                            assert(ss[b].0 != ss[a].0);
                        } else if b == i - 1 {
                            assert(ss[a].0 != ss[b].0);
                        } else {
                            assert(ss[a].0 != ss[b].0);
                        }
                    }
                }
            }
        } else {
            self.sections.push((name, section));
            assert(self@.sections.drop_last() =~= ss);
            assert(!exists|c: int| last_named(ss, name@, c));
            assert(names_unique(ss) ==> names_unique(self@.sections)) by {
                if names_unique(ss) {
                    let u = self@.sections;
                    assert forall|a: int, b: int| 0 <= a < b < u.len() implies #[trigger] u[a].0
                        != #[trigger] u[b].0 by {
                        if b == ss.len() {
                            assert(ss[a].0 != name@);
                        } else {
                            assert(ss[a].0 != ss[b].0);
                        }
                    }
                }
            }
        }
    }

    /// The global section, if the file has one.
    pub fn get_global_section(&self) -> (r: Option<&IniSection>)
        ensures
            section_opt_view(r) == content(self@).global,
    {
        match &self.global_section {
            Some(g) => Some(g),
            None => None,
        }
    }

    /// The section named `name`, if the file has one.
    pub fn get_section_by_name(&self, name: &str) -> (r: Option<&IniSection>)
        ensures
            section_opt_view(r) == content(self@).sections.get(name@),
    {
        let n = String::from_str(name);
        let ghost ss = self@.sections;
        let mut i: usize = self.sections.len();
        while i > 0
            invariant
                i <= self.sections@.len(),
                ss == self@.sections,
                n@ == name@,
                forall|j: int| i <= j < ss.len() ==> #[trigger] ss[j].0 != name@,
            decreases i,
        {
            assert(ss[i - 1].0 == self.sections@[i - 1].0@);
            if self.sections[i - 1].0 == n {
                proof {
                    lemma_sections_map_last(ss, name@, i - 1);
                }
                return Some(&self.sections[i - 1].1);
            }
            i = i - 1;
        }
        proof {
            lemma_sections_map_absent(ss, name@);
        }
        None
    }

    /// The file as text: it reads back as the same file.
    pub fn to_string(&self) -> (r: String)
        ensures
            r@ == file_text(self@),
    {
        let mut r = String::new();
        if let Some(g) = &self.global_section {
            let t = g.to_string();
            append(&mut r, &t);
            push_char(&mut r, '\n');
        }
        let ghost head = r@;
        let ghost ss = self@.sections;
        let mut i: usize = 0;
        while i < self.sections.len()
            invariant
                0 <= i <= self.sections@.len(),
                ss == self@.sections,
                r@ == head + sections_text(ss.take(i as int)),
            decreases self.sections@.len() - i,
        {
            push_char(&mut r, '[');
            append(&mut r, &self.sections[i].0);
            push_char(&mut r, ']');
            push_char(&mut r, '\n');
            let t = self.sections[i].1.to_string();
            append(&mut r, &t);
            assert(ss.take(i + 1).drop_last() =~= ss.take(i as int));
            assert(r@ =~= head + sections_text(ss.take(i + 1)));
            i = i + 1;
        }
        assert(ss.take(i as int) =~= ss);
        assert(r@ =~= file_text(self@));
        r
    }
}


/// Among entries with equal keys the first inserted answers a lookup: where
/// `i` holds the first entry with key `key`, the lookup gives its value,
/// whatever entries with that key follow.
pub proof fn lemma_first_entry_wins(es: SectionView, key: Seq<char>, i: int)
    requires
        0 <= i < es.len(),
        es[i].0 == key,
        forall|j: int| 0 <= j < i ==> #[trigger] es[j].0 != key,
    ensures
        value_by_key(es, key) == Some(es[i].1),
    decreases i,
{
    if i > 0 {
        let t = es.drop_first();
        assert(es[0].0 != key);
        assert forall|j: int| 0 <= j < i - 1 implies #[trigger] t[j].0 != key by {
            assert(t[j] == es[j + 1]);
        }
        lemma_first_entry_wins(t, key, i - 1);
    }
}

} // verus!
