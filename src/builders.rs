//! Accumulators that build sections and files, one owned step at a time.
use vstd::prelude::*;
use crate::models::{
    IniEntry, IniFile, IniFileView, IniSection, SectionId, SectionView, insert_named,
    names_unique, sections_map,
};

verus! {

/// Collects the entries of one section under its id.
pub struct IniSectionBuilder {
    section: IniSection,
    id: SectionId,
}

impl View for IniSectionBuilder {
    /// The id (`None` for global) and the entries collected so far.
    type V = (Option<Seq<char>>, SectionView);

    closed spec fn view(&self) -> (Option<Seq<char>>, SectionView) {
        (self.id@, self.section@)
    }
}

impl Default for IniSectionBuilder {
    /// A builder for the global section, with no entries.
    fn default() -> (r: IniSectionBuilder)
        ensures
            r@ == (None::<Seq<char>>, Seq::<(Seq<char>, Seq<char>)>::empty()),
    {
        IniSectionBuilder::new(SectionId::Global)
    }
}

impl IniSectionBuilder {
    /// A builder for the section `id`, with no entries.
    pub fn new(id: SectionId) -> (r: IniSectionBuilder)
        ensures
            r@ == (id@, Seq::<(Seq<char>, Seq<char>)>::empty()),
    {
        IniSectionBuilder { section: IniSection::new(), id }
    }

    /// The same entries, under the id `id`.
    pub fn set_id(self, id: SectionId) -> (r: IniSectionBuilder)
        ensures
            r@ == (id@, self@.1),
    {
        IniSectionBuilder { section: self.section, id }
    }

    /// Appends `entry`.
    pub fn add_entry(self, entry: IniEntry) -> (r: IniSectionBuilder)
        ensures
            r@ == (self@.0, self@.1.push(entry@)),
    {
        let mut section = self.section;
        let ghost before = section@;
        section.entries.push(entry);
        assert(section@ =~= before.push(entry@));
        IniSectionBuilder { section, id: self.id }
    }

    /// Appends the entry `key = value`.
    pub fn add_key_value_pair(self, key: &str, value: &str) -> (r: IniSectionBuilder)
        ensures
            r@ == (self@.0, self@.1.push((key@, value@))),
    {
        self.add_entry(IniEntry { key: String::from_str(key), value: String::from_str(value) })
    }

    /// The id and the finished section.
    pub fn build(self) -> (r: (SectionId, IniSection))
        ensures
            (r.0@, r.1@) == self@,
    {
        (self.id, self.section)
    }
}

/// Collects the sections of one file.
pub struct IniFileBuilder {
    ini_file: IniFile,
}

impl View for IniFileBuilder {
    type V = IniFileView;

    closed spec fn view(&self) -> IniFileView {
        self.ini_file@
    }
}

impl IniFileBuilder {
    /// A builder of a file with no sections at all.
    pub fn new() -> (r: IniFileBuilder)
        ensures
            r@ == (IniFileView { global: None, sections: seq![] }),
            names_unique(r@.sections),
    {
        IniFileBuilder { ini_file: IniFile::empty() }
    }

    /// Installs `section` under `name`, in place of any earlier section of
    /// that name.
    pub fn new_section(self, name: &str, section: IniSection) -> (r: IniFileBuilder)
        ensures
            r@.global == self@.global,
            r@.sections == insert_named(self@.sections, name@, section@),
            sections_map(r@.sections) == sections_map(self@.sections).insert(name@, section@),
            names_unique(self@.sections) ==> names_unique(r@.sections),
    {
        let mut ini_file = self.ini_file;
        ini_file.insert_section(String::from_str(name), section);
        IniFileBuilder { ini_file }
    }

    /// Installs `section` as the global section.
    pub fn set_global_section(self, section: IniSection) -> (r: IniFileBuilder)
        ensures
            r@ == (IniFileView { global: Some(section@), ..self@ }),
    {
        let mut ini_file = self.ini_file;
        ini_file.set_global(section);
        IniFileBuilder { ini_file }
    }

    /// The finished file.
    pub fn build(self) -> (r: IniFile)
        ensures
            r@ == self@,
    {
        self.ini_file
    }
}

} // verus!
