use miniparse::builders::IniSectionBuilder;
use miniparse::{find, parse, IniFileBuilder};

fn make_dummy_ini_string() -> String {
    let (_, global_section) = IniSectionBuilder::default()
        .add_key_value_pair("g_key1", "g_value11")
        .add_key_value_pair("g_key2", "g_value12")
        .add_key_value_pair("g_key3", "g_value13")
        .build();

    let (_, section1) = IniSectionBuilder::default()
        .add_key_value_pair("key1", "value21")
        .add_key_value_pair("key2", "value22")
        .build();

    let (_, section2) = IniSectionBuilder::default()
        .add_key_value_pair("key1", "value31")
        .add_key_value_pair("key2", "value32")
        .add_key_value_pair("key3", "value33")
        .build();

    let dummy_ini = IniFileBuilder::new()
        .set_global_section(global_section)
        .new_section("section1", section1)
        .new_section("section2", section2)
        .build();

    dummy_ini.to_string()
}

#[test]
fn parse_happy_flow() {
    let dummy_ini_string = make_dummy_ini_string();
    parse(dummy_ini_string.as_str()).unwrap();
}

#[test]
fn find_existing_section_in_parsed_file() {
    let dummy_ini_string = make_dummy_ini_string();
    let ini_file = parse(dummy_ini_string.as_str()).unwrap();
    assert!(ini_file.get_section_by_name("section1").is_some())
}

#[test]
fn do_not_find_non_existing_section_in_parsed_file() {
    let dummy_ini_string = make_dummy_ini_string();
    let ini_file = parse(dummy_ini_string.as_str()).unwrap();
    assert!(ini_file.get_section_by_name("i do not exist").is_none())
}

#[test]
fn find_existing_key_in_parsed_file() {
    let dummy_ini_string = make_dummy_ini_string();
    let ini_file = parse(dummy_ini_string.as_str()).unwrap();
    let section1 = ini_file.get_section_by_name("section1").unwrap();
    assert!(section1.get_value_by_key("key1").is_some())
}

#[test]
fn do_not_find_non_existing_key_in_parsed_file() {
    let dummy_ini_string = make_dummy_ini_string();
    let ini_file = parse(dummy_ini_string.as_str()).unwrap();
    let section1 = ini_file.get_section_by_name("section1").unwrap();
    assert!(section1.get_value_by_key("i do not exist").is_none())
}

#[test]
fn find_correct_value_in_parsed_file() {
    let dummy_ini_string = make_dummy_ini_string();
    let ini_file = parse(dummy_ini_string.as_str()).unwrap();
    let section1 = ini_file.get_section_by_name("section1").unwrap();
    assert_eq!(section1.get_value_by_key("key1").unwrap(), "value21")
}

#[test]
fn find_correct_global_value_in_parsed_file() {
    let dummy_ini_string = make_dummy_ini_string();
    let ini_file = parse(dummy_ini_string.as_str()).unwrap();
    let global_section = ini_file.get_global_section().unwrap();
    assert_eq!(global_section.get_value_by_key("g_key1").unwrap(), "g_value11")
}

#[test]
fn find_correct_value() {
    let dummy_ini_string = make_dummy_ini_string();
    let found_value = find(dummy_ini_string.as_str(), "key1", Some("section1")).unwrap().unwrap();
    assert_eq!(found_value, "value21")
}

#[test]
fn do_not_find_non_existing_key() {
    let dummy_ini_string = make_dummy_ini_string();
    let found_value = find(dummy_ini_string.as_str(), "i do not exist", None).unwrap();
    assert!(found_value.is_none())
}

#[test]
fn find_global_value() {
    let dummy_ini_string = make_dummy_ini_string();
    let found_value = find(dummy_ini_string.as_str(), "g_key2", None).unwrap().unwrap();
    assert_eq!(found_value, "g_value12")
}
