use gsxman::body::extract_body;
use gsxman::coords::GeoPosition;
use gsxman::ini::parse_file;

#[test]
fn section_with_position_and_no_labels() {
    let doc = parse_file("[Gate A1]\npushback_pos=47.45 8.56\n");
    let body = extract_body(&doc);
    assert_eq!(body.sections.len(), 1);
    let section = &body.sections[0];
    assert_eq!(section.name, "Gate A1");
    assert_eq!(
        section.position,
        GeoPosition { lat_micro: 47_450_000, lon_micro: 8_560_000 }
    );
    assert!(section.pushback_left.is_none());
    assert!(section.pushback_right.is_none());
}

#[test]
fn section_without_position_is_absent() {
    let doc = parse_file("[Gate A1]\nother = 1\n[Gate B2]\npushback_pos=1 2\n");
    let body = extract_body(&doc);
    assert_eq!(body.sections.len(), 1);
    assert_eq!(body.sections[0].name, "Gate B2");
}

#[test]
fn general_section_is_never_a_body_section() {
    let doc = parse_file("[general]\ncreator = Jane\npushback_pos=1 2\n[General Aviation]\npushback_pos=3 4\n");
    let body = extract_body(&doc);
    assert_eq!(body.creator, "Jane");
    assert_eq!(body.sections.len(), 1);
    assert_eq!(body.sections[0].name, "General Aviation");
}

#[test]
fn general_exclusion_ignores_case_but_creator_lookup_does_not() {
    let doc = parse_file("[GENERAL]\ncreator = Jane\npushback_pos=1 2\n");
    let body = extract_body(&doc);
    // excluded from the section list in any casing
    assert_eq!(body.sections.len(), 0);
    // but the creator is read from the exact `general` section only
    assert_eq!(body.creator, "");
}

#[test]
fn missing_creator_defaults_to_empty() {
    let doc = parse_file("[Gate A1]\npushback_pos=1 2\n");
    let body = extract_body(&doc);
    assert_eq!(body.creator, "");
}

#[test]
fn pushback_sides_pair_labels_with_positions() {
    let doc = parse_file(
        "[Gate A1]\npushback_pos=1 2\npushbacklabels=North|South\npushbackleftpos=3 4\npushbackrightpos=5 6\n",
    );
    let body = extract_body(&doc);
    let section = &body.sections[0];
    let left = section.pushback_left.as_ref().unwrap();
    assert_eq!(left.label, "North");
    assert_eq!(left.position, GeoPosition { lat_micro: 3_000_000, lon_micro: 4_000_000 });
    let right = section.pushback_right.as_ref().unwrap();
    assert_eq!(right.label, "South");
    assert_eq!(right.position, GeoPosition { lat_micro: 5_000_000, lon_micro: 6_000_000 });
}

#[test]
fn label_without_matching_position_drops_that_side_only() {
    let doc = parse_file(
        "[Gate A1]\npushback_pos=1 2\npushbacklabels=North|South\npushbackleftpos=3 4\n",
    );
    let body = extract_body(&doc);
    let section = &body.sections[0];
    assert!(section.pushback_left.is_some());
    assert!(section.pushback_right.is_none());
}

#[test]
fn single_label_never_yields_a_right_side() {
    let doc = parse_file(
        "[Gate A1]\npushback_pos=1 2\npushbacklabels=North\npushbackleftpos=3 4\npushbackrightpos=5 6\n",
    );
    let body = extract_body(&doc);
    let section = &body.sections[0];
    assert!(section.pushback_left.is_some());
    assert!(section.pushback_right.is_none());
}

#[test]
fn position_without_labels_key_has_no_sides() {
    let doc = parse_file("[Gate A1]\npushback_pos=1 2\npushbackleftpos=3 4\n");
    let body = extract_body(&doc);
    let section = &body.sections[0];
    assert!(section.pushback_left.is_none());
    assert!(section.pushback_right.is_none());
}

#[test]
fn malformed_position_falls_back_to_origin_but_keeps_the_section() {
    let doc = parse_file("[Gate A1]\npushback_pos=north south\n");
    let body = extract_body(&doc);
    assert_eq!(body.sections.len(), 1);
    assert_eq!(
        body.sections[0].position,
        GeoPosition { lat_micro: 0, lon_micro: 0 }
    );
}

#[test]
fn sections_keep_document_order_and_get_distinct_ids() {
    let doc = parse_file("[B]\npushback_pos=1 2\n[A]\npushback_pos=3 4\n");
    let body = extract_body(&doc);
    assert_eq!(body.sections.len(), 2);
    assert_eq!(body.sections[0].name, "B");
    assert_eq!(body.sections[1].name, "A");
    assert_ne!(body.sections[0].id, body.sections[1].id);
}
