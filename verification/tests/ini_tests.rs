use gsxman::ini::{handle_key_value_line, handle_section_line, parse_file, IniDocument};

#[test]
fn handle_section_line_testcases() {
    let section1_string = String::from("[section1]");
    let section2_string = String::from("[    section2]");
    let section3_string = String::from("[      section3       ]");
    let section4_string = String::from("[section4       ]");
    let section5_string = String::from("[  section 5      ]");
    let invalid_section_string = String::from("[      ]");

    let mut ini_file = IniDocument::new();

    handle_section_line(&section1_string, &mut ini_file);
    handle_section_line(&section2_string, &mut ini_file);
    handle_section_line(&section3_string, &mut ini_file);
    handle_section_line(&section4_string, &mut ini_file);
    handle_section_line(&section5_string, &mut ini_file);
    handle_section_line(&invalid_section_string, &mut ini_file);

    assert_eq!(ini_file.section_count(), 5);
    assert!(ini_file.contains_section("section1"));
    assert!(ini_file.contains_section("section2"));
    assert!(ini_file.contains_section("section3"));
    assert!(ini_file.contains_section("section4"));
    assert!(ini_file.contains_section("section 5"));
}

#[test]
fn handle_key_value_line_testcases() {
    let current_section_string = String::from("[Testsection]");
    let current_section = String::from("Testsection");
    let key_value1_string = String::from("key1 = value");
    let key_value2_string = String::from("key2= value");
    let key_value3_string = String::from("key3 =value");
    let key_value4_string = String::from("key4=value");
    let key_value4_override_string = String::from("key4 = valuenew");
    let key_value5_string = String::from("key5 = value");
    let key_value6_string = String::from("key6 = [(value1),(value2)]");

    let mut ini_file = IniDocument::new();
    handle_section_line(&current_section_string, &mut ini_file);

    let current_section = Some(current_section);

    handle_key_value_line(&key_value1_string, &current_section, &mut ini_file);
    handle_key_value_line(&key_value2_string, &current_section, &mut ini_file);
    handle_key_value_line(&key_value3_string, &current_section, &mut ini_file);
    handle_key_value_line(&key_value4_string, &current_section, &mut ini_file);
    // Old value should be overridden
    handle_key_value_line(&key_value4_override_string, &current_section, &mut ini_file);
    // No active Section, cannot assign
    handle_key_value_line(&key_value5_string, &None, &mut ini_file);
    // Handle arrays as value
    handle_key_value_line(&key_value6_string, &current_section, &mut ini_file);

    let current_section = current_section.unwrap();
    let section = ini_file.get_section(&current_section).unwrap();

    // Assert different formatting of key value lines
    assert!(ini_file.contains_section(&current_section));
    assert_eq!(section.get("key1").unwrap().to_owned(), String::from("value"));
    assert_eq!(section.get("key2").unwrap().to_owned(), String::from("value"));
    assert_eq!(section.get("key3").unwrap().to_owned(), String::from("value"));
    assert_eq!(section.get("key4").unwrap().to_owned(), String::from("valuenew"));
    assert_eq!(section.contains_key("key5"), false);
    assert_eq!(
        section.get("key6").unwrap().to_owned(),
        String::from("[(value1),(value2)]")
    );
}

#[test]
fn section_context_opens_on_well_formed_header() {
    let doc = parse_file("[alpha]\nkey = 1\n");
    assert_eq!(doc.get_value("alpha", "key").unwrap(), "1");
}

#[test]
fn empty_interior_header_keeps_prior_context() {
    // The rejected header `[   ]` must neither open a section nor close the
    // one already open: the following key still lands in `alpha`.
    let doc = parse_file("[alpha]\n[   ]\nkey = 1\n");
    assert_eq!(doc.section_count(), 1);
    assert_eq!(doc.get_value("alpha", "key").unwrap(), "1");
}

#[test]
fn last_write_wins_within_a_section() {
    let doc = parse_file("[alpha]\nkey = first\nkey = second\n");
    assert_eq!(doc.get_value("alpha", "key").unwrap(), "second");
}

#[test]
fn lines_without_exactly_one_equals_add_no_entry() {
    let doc = parse_file("[alpha]\nnoequals\npair = a = b\nkey = 1\n");
    let section = doc.get_section("alpha").unwrap();
    assert!(!section.contains_key("noequals"));
    assert!(!section.contains_key("pair"));
    assert_eq!(section.get("key").unwrap(), "1");
}

#[test]
fn lines_starting_with_other_characters_are_ignored() {
    let doc = parse_file("[alpha]\n;comment = x\n#other = y\n1digit = z\nkey = 1\n");
    let section = doc.get_section("alpha").unwrap();
    assert!(!section.contains_key("comment"));
    assert!(!section.contains_key("other"));
    assert!(!section.contains_key("1digit"));
    assert_eq!(section.get("key").unwrap(), "1");
}

#[test]
fn key_value_needs_active_section() {
    let doc = parse_file("stray = 1\n[alpha]\nkey = 2\n");
    assert_eq!(doc.section_count(), 1);
    assert_eq!(doc.get_value("alpha", "key").unwrap(), "2");
    assert!(doc.get_value("alpha", "stray").is_none());
}

#[test]
fn reopened_section_is_reset() {
    let doc = parse_file("[alpha]\nkey = 1\n[beta]\nother = 2\n[alpha]\nnew = 3\n");
    let section = doc.get_section("alpha").unwrap();
    assert!(!section.contains_key("key"));
    assert_eq!(section.get("new").unwrap(), "3");
    assert_eq!(doc.get_value("beta", "other").unwrap(), "2");
}

#[test]
fn section_names_are_case_sensitive() {
    let doc = parse_file("[Alpha]\nkey = 1\n");
    assert!(doc.contains_section("Alpha"));
    assert!(!doc.contains_section("alpha"));
}
