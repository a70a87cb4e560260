use gsxman::airports::load_airport_table;
use gsxman::csv::parse_csv_line;

#[test]
fn csv_splits_plain_fields() {
    let fields = parse_csv_line("LSZH,Zurich,47.458056,8.548056").unwrap();
    assert_eq!(fields, vec!["LSZH", "Zurich", "47.458056", "8.548056"]);
}

#[test]
fn csv_handles_quoted_fields_and_escaped_quotes() {
    let fields = parse_csv_line("EGLL,\"London, Heathrow\",51.4775,-0.461389").unwrap();
    assert_eq!(fields[1], "London, Heathrow");
    let fields = parse_csv_line("a,\"say \"\"hi\"\"\",b").unwrap();
    assert_eq!(fields[1], "say \"hi\"");
}

#[test]
fn csv_keeps_empty_and_trailing_fields() {
    let fields = parse_csv_line("a,,c,").unwrap();
    assert_eq!(fields, vec!["a", "", "c", ""]);
}

#[test]
fn csv_rejects_malformed_quoting() {
    assert!(parse_csv_line("a,\"unterminated").is_none());
    assert!(parse_csv_line("a,\"x\"y,b").is_none());
}

#[test]
fn loads_table_and_looks_up_case_insensitively() {
    let text = "code,name,lat,lon\nlszh,Zurich,47.458056,8.548056\nEGLL,\"London, Heathrow\",51.4775,-0.461389\n";
    let table = load_airport_table(text).unwrap();
    assert_eq!(table.len(), 2);
    let zrh = table.lookup("lszh").unwrap();
    assert_eq!(zrh.icao, "LSZH");
    assert_eq!(zrh.name, "Zurich");
    assert_eq!(zrh.location.lat_micro, 47_458_056);
    assert_eq!(zrh.location.lon_micro, 8_548_056);
    let lhr = table.lookup("EGLL").unwrap();
    assert_eq!(lhr.name, "London, Heathrow");
    assert_eq!(lhr.location.lon_micro, -461_389);
    assert!(table.lookup("XXXX").is_none());
}

#[test]
fn blank_lines_are_skipped() {
    let text = "code,name,lat,lon\n\nLSZH,Zurich,47.45,8.54\n\n";
    let table = load_airport_table(text).unwrap();
    assert_eq!(table.len(), 1);
}

#[test]
fn duplicate_code_keeps_the_later_row() {
    let text = "code,name,lat,lon\nLSZH,First,1,2\nlszh,Second,3,4\n";
    let table = load_airport_table(text).unwrap();
    assert_eq!(table.len(), 1);
    assert_eq!(table.lookup("LSZH").unwrap().name, "Second");
}

#[test]
fn corrupt_rows_fail_the_whole_load() {
    // wrong width
    assert!(load_airport_table("code,name,lat,lon\nLSZH,Zurich,47.45\n").is_none());
    // unparseable coordinate
    assert!(load_airport_table("code,name,lat,lon\nLSZH,Zurich,xx,8.54\n").is_none());
    // broken quoting
    assert!(load_airport_table("code,name,lat,lon\nLSZH,\"Zurich,47.45,8.54\n").is_none());
}

#[test]
fn carriage_returns_are_tolerated() {
    let text = "code,name,lat,lon\r\nLSZH,Zurich,47.45,8.54\r\n";
    let table = load_airport_table(text).unwrap();
    assert_eq!(table.lookup("LSZH").unwrap().location.lat_micro, 47_450_000);
}
