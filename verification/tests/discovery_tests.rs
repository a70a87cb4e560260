use gsxman::airports::load_airport_table;
use gsxman::discovery::{
    find_record, is_gsx_artifact_name, is_profile_file_name, remove_record, scan_profiles,
    store_body, FileEntry,
};
use gsxman::body::ProfileBody;

fn entry(name: &str) -> FileEntry {
    FileEntry {
        file_name: String::from(name),
        file_path: format!("C:\\profiles\\{}", name),
        last_modified: 1_700_000_000,
    }
}

fn table_text() -> &'static str {
    "code,name,lat,lon\nLSZH,Zurich,47.458056,8.548056\nEDDF,Frankfurt,50.033333,8.570556\n"
}

#[test]
fn artifact_and_profile_name_patterns() {
    assert!(is_profile_file_name("LSZH-gsx.ini"));
    assert!(is_profile_file_name("lszh-anything at all.ini"));
    assert!(is_gsx_artifact_name("LSZH-gsx.py"));
    assert!(is_gsx_artifact_name("LSZH-gsx.ini"));
    assert!(!is_profile_file_name("LSZH-gsx.py"));
    assert!(!is_profile_file_name("LSZ-gsx.ini"));
    assert!(!is_profile_file_name("LSZHX-gsx.ini"));
    assert!(!is_profile_file_name("readme.txt"));
    assert!(!is_gsx_artifact_name("notes-LSZH.txt"));
    assert!(!is_profile_file_name("LSZH-gsx.initial"));
}

#[test]
fn known_airport_yields_exactly_one_record() {
    let table = load_airport_table(table_text()).unwrap();
    let entries = vec![entry("LSZH-whatever.ini")];
    let catalog = scan_profiles(&entries, &table);
    assert_eq!(catalog.len(), 1);
    assert_eq!(catalog[0].airport.icao, "LSZH");
    assert_eq!(catalog[0].file_name, "LSZH-whatever.ini");
    assert_eq!(catalog[0].has_duplicate_conflict, false);
    assert!(catalog[0].body.is_none());
}

#[test]
fn unknown_airport_yields_no_record() {
    let table = load_airport_table(table_text()).unwrap();
    let entries = vec![entry("ZZZZ-whatever.ini")];
    let catalog = scan_profiles(&entries, &table);
    assert_eq!(catalog.len(), 0);
}

#[test]
fn duplicate_airports_flag_both_records() {
    let table = load_airport_table(table_text()).unwrap();
    let entries = vec![
        entry("LSZH-a.ini"),
        entry("EDDF-x.ini"),
        entry("LSZH-b.ini"),
    ];
    let catalog = scan_profiles(&entries, &table);
    assert_eq!(catalog.len(), 3);
    assert!(catalog[0].has_duplicate_conflict);
    assert!(!catalog[1].has_duplicate_conflict);
    assert!(catalog[2].has_duplicate_conflict);
}

#[test]
fn lone_profile_is_unflagged() {
    let table = load_airport_table(table_text()).unwrap();
    let entries = vec![entry("LSZH-a.ini")];
    let catalog = scan_profiles(&entries, &table);
    assert_eq!(catalog.len(), 1);
    assert!(!catalog[0].has_duplicate_conflict);
}

#[test]
fn companion_script_is_found_by_exact_name() {
    let table = load_airport_table(table_text()).unwrap();
    let entries = vec![entry("LSZH-gsx.ini"), entry("LSZH-gsx.py")];
    let catalog = scan_profiles(&entries, &table);
    assert_eq!(catalog.len(), 1);
    assert_eq!(catalog[0].companion_script.as_deref(), Some("LSZH-gsx.py"));

    let entries = vec![entry("LSZH-gsx.ini"), entry("LSZH-other.py")];
    let catalog = scan_profiles(&entries, &table);
    assert!(catalog[0].companion_script.is_none());
}

#[test]
fn rescanning_unchanged_listing_is_stable() {
    let table = load_airport_table(table_text()).unwrap();
    let entries = vec![
        entry("LSZH-a.ini"),
        entry("LSZH-b.ini"),
        entry("EDDF-x.ini"),
        entry("notes.txt"),
    ];
    let first = scan_profiles(&entries, &table);
    let second = scan_profiles(&entries, &table);
    let project = |c: &Vec<gsxman::discovery::ProfileRecord>| -> Vec<(String, String, bool)> {
        c.iter()
            .map(|r| (r.airport.icao.clone(), r.file_name.clone(), r.has_duplicate_conflict))
            .collect()
    };
    assert_eq!(project(&first), project(&second));
}

#[test]
fn records_are_found_and_removed_by_id() {
    let table = load_airport_table(table_text()).unwrap();
    let entries = vec![entry("LSZH-a.ini"), entry("EDDF-x.ini")];
    let mut catalog = scan_profiles(&entries, &table);
    let id = catalog[1].id;
    assert_eq!(find_record(&catalog, id).unwrap().airport.icao, "EDDF");
    let body = ProfileBody { creator: String::from("someone"), sections: Vec::new() };
    assert!(store_body(&mut catalog, id, body));
    assert_eq!(
        find_record(&catalog, id).unwrap().body.as_ref().unwrap().creator,
        "someone"
    );
    assert!(remove_record(&mut catalog, id));
    assert!(find_record(&catalog, id).is_none());
    assert!(!remove_record(&mut catalog, id));
    assert_eq!(catalog.len(), 1);
}
