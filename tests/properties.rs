use miniparse::builders::IniSectionBuilder;
use miniparse::models::{IniEntry, IniSection};
use miniparse::{find, parse, IniFileBuilder, SectionId};

#[test]
fn first_entry_of_a_key_wins() {
    let (_, section) = IniSectionBuilder::default()
        .add_key_value_pair("k", "a")
        .add_key_value_pair("k", "b")
        .build();
    assert_eq!(section.get_value_by_key("k"), Some("a"));
    assert_eq!(section.entries.len(), 2);
}

#[test]
fn first_entry_of_a_key_wins_after_parse() {
    let file = parse("k=a\nk=b").unwrap();
    assert_eq!(file.get_global_section().unwrap().get_value_by_key("k"), Some("a"));
}

#[test]
fn last_section_of_a_name_wins() {
    let file = parse("[s]\nk=1\nold=x\n[t]\nk=2\n[s]\nk=3").unwrap();
    let s = file.get_section_by_name("s").unwrap();
    assert_eq!(s.get_value_by_key("k"), Some("3"));
    assert_eq!(s.get_value_by_key("old"), None);
    assert_eq!(s.entries.len(), 1);
    assert_eq!(file.get_section_by_name("t").unwrap().get_value_by_key("k"), Some("2"));
}

#[test]
fn builder_replaces_a_section_of_the_same_name() {
    let (_, first) = IniSectionBuilder::default().add_key_value_pair("k", "1").build();
    let (_, second) = IniSectionBuilder::default().add_key_value_pair("j", "2").build();
    let file = IniFileBuilder::new().new_section("s", first).new_section("s", second).build();
    let s = file.get_section_by_name("s").unwrap();
    assert_eq!(s.get_value_by_key("k"), None);
    assert_eq!(s.get_value_by_key("j"), Some("2"));
    assert_eq!(file.to_string(), "[s]\nj = 2\n");
}

#[test]
fn no_global_lines_means_no_global_section() {
    let file = parse("[a]\nk=1").unwrap();
    assert!(file.get_global_section().is_none());
    let file = parse("").unwrap();
    assert!(file.get_global_section().is_none());
    let file = parse("\n   \n[a]\n").unwrap();
    assert!(file.get_global_section().is_none());
}

#[test]
fn empty_named_section_is_kept() {
    let file = parse("[empty]\n[full]\nk=v").unwrap();
    let empty = file.get_section_by_name("empty").unwrap();
    assert!(empty.entries.is_empty());
    assert_eq!(file.get_section_by_name("full").unwrap().get_value_by_key("k"), Some("v"));
}

#[test]
fn round_trip_keeps_content() {
    let text = "g=1\ng=2\n[a]\nk=1\n[b]\n[a]\nx = y\n";
    let file = parse(text).unwrap();
    let rendered = file.to_string();
    assert_eq!(rendered, "g = 1\ng = 2\n\n[a]\nx = y\n[b]\n");
    let again = parse(&rendered).unwrap();
    assert_eq!(again.to_string(), rendered);
    assert_eq!(again.get_global_section().unwrap().get_value_by_key("g"), Some("1"));
    assert_eq!(again.get_section_by_name("a").unwrap().get_value_by_key("x"), Some("y"));
    assert!(again.get_section_by_name("b").unwrap().entries.is_empty());
}

#[test]
fn scoped_find_stops_at_next_header() {
    let text = "[a]\nk=1\n[b]\nk=2";
    assert_eq!(find(text, "k", Some("a")).unwrap(), Some("1".to_string()));
    assert_eq!(find(text, "k", Some("b")).unwrap(), Some("2".to_string()));
    let text = "[a]\nj=1\n[b]\nk=2";
    assert_eq!(find(text, "k", Some("a")).unwrap(), None);
    assert_eq!(find(text, "k", Some("c")).unwrap(), None);
}

#[test]
fn unscoped_find_crosses_sections() {
    let text = "[a]\nk=1\n[b]\nk=2";
    assert_eq!(find(text, "k", None).unwrap(), Some("1".to_string()));
    assert_eq!(find("[b]\nk=2", "k", None).unwrap(), Some("2".to_string()));
}

#[test]
fn unparsable_lines_are_skipped() {
    let file = parse("garbage\nkey=value").unwrap();
    let global = file.get_global_section().unwrap();
    assert_eq!(global.entries.len(), 1);
    assert_eq!(global.entries[0].key, "key");
    assert_eq!(global.entries[0].value, "value");
    let file = parse("a=b=c\n[]\n= v\nk =\nk v = w").unwrap();
    assert!(file.get_global_section().is_none());
    assert!(file.get_section_by_name("").is_none());
}

#[test]
fn whitespace_around_key_and_value() {
    let file = parse("  key = value  ").unwrap();
    let global = file.get_global_section().unwrap();
    assert_eq!(global.entries[0].key, "key");
    assert_eq!(global.entries[0].value, "value");
    let file = parse("\tk\u{a0}=\u{3000}v\r\n").unwrap();
    assert_eq!(file.get_global_section().unwrap().get_value_by_key("k"), Some("v"));
}

#[test]
fn header_name_runs_to_the_last_bracket() {
    let file = parse("[a]]\nk=1\n  [x y]  \nj=2").unwrap();
    assert_eq!(file.get_section_by_name("a]").unwrap().get_value_by_key("k"), Some("1"));
    assert_eq!(file.get_section_by_name("x y").unwrap().get_value_by_key("j"), Some("2"));
}

#[test]
fn key_value_is_tried_before_header() {
    let file = parse("[a=b]").unwrap();
    assert_eq!(file.get_global_section().unwrap().get_value_by_key("[a"), Some("b]"));
    assert!(file.get_section_by_name("a=b").is_none());
}

#[test]
fn find_on_blank_and_missing() {
    assert_eq!(find("", "k", None).unwrap(), None);
    assert_eq!(find("\n\n", "k", Some("a")).unwrap(), None);
    assert_eq!(find("k=1\n[a]\nk=2", "k", Some("a")).unwrap(), Some("2".to_string()));
}

#[test]
fn rendering_entries_and_sections() {
    let entry = IniEntry { key: "k".to_string(), value: "v".to_string() };
    assert_eq!(entry.to_string(), "k = v");
    let mut section = IniSection::new();
    section.entries.push(entry);
    section.entries.push(IniEntry { key: "j".to_string(), value: "w".to_string() });
    assert_eq!(section.to_string(), "k = v\nj = w\n");
}

#[test]
fn section_builder_ids() {
    let (id, section) = IniSectionBuilder::new(SectionId::Named("s".to_string()))
        .add_entry(IniEntry { key: "k".to_string(), value: "v".to_string() })
        .set_id(SectionId::Global)
        .build();
    assert!(matches!(id, SectionId::Global));
    assert_eq!(section.get_value_by_key("k"), Some("v"));
}

#[test]
fn flush_rule_for_global_and_named() {
    let file = miniparse::add_section_to_ini_builder(IniFileBuilder::new(), IniSectionBuilder::default()).build();
    assert!(file.get_global_section().is_none());
    let named = IniSectionBuilder::new(SectionId::Named("n".to_string()));
    let file = miniparse::add_section_to_ini_builder(IniFileBuilder::new(), named).build();
    assert!(file.get_section_by_name("n").unwrap().entries.is_empty());
    let global = IniSectionBuilder::default().add_key_value_pair("k", "v");
    let file = miniparse::add_section_to_ini_builder(IniFileBuilder::new(), global).build();
    assert_eq!(file.get_global_section().unwrap().get_value_by_key("k"), Some("v"));
}

#[test]
fn unparsable_lines_are_reported() {
    let text = "garbage\nkey=value\n\n[]\n[s]\na=b=c\n  ok = yes  ";
    assert_eq!(miniparse::unparsable_lines(text), vec![0, 3, 5]);
    assert!(miniparse::unparsable_lines("").is_empty());
    assert_eq!(miniparse::unparsable_lines("k=v\nnope"), vec![1]);
}

#[test]
fn rebuilt_section_keeps_its_place() {
    let (_, a1) = IniSectionBuilder::default().add_key_value_pair("k", "1").build();
    let (_, b) = IniSectionBuilder::default().add_key_value_pair("k", "2").build();
    let (_, a2) = IniSectionBuilder::default().add_key_value_pair("k", "3").build();
    let file = IniFileBuilder::new()
        .new_section("a", a1)
        .new_section("b", b)
        .new_section("a", a2)
        .build();
    assert_eq!(file.to_string(), "[a]\nk = 3\n[b]\nk = 2\n");
}
