use keep_newest::entry::read_entry;
use keep_newest::marker::{
    extract_group_version, split_at_marker, version_regex, MarkerMatch, VERSION_PATTERN,
};
use regex::Regex;

fn parts(group: &str, token: &str) -> Option<(String, String)> {
    Some((group.to_string(), token.to_string()))
}

#[test]
fn pattern_is_the_documented_one() {
    assert_eq!(VERSION_PATTERN, "_(?:[a-zA-Z]+\\.)?([0-9A-Z])_");
}

#[test]
fn version_regex_compiles_the_pattern() {
    let regex = version_regex();
    assert_eq!(regex.as_str(), VERSION_PATTERN);
}

#[test]
fn bare_marker_yields_group_and_token() {
    let regex = version_regex();
    assert_eq!(extract_group_version("Valve_1_x.xls", &regex), parts("Valve", "1"));
    assert_eq!(extract_group_version("Valve_A_x.xls", &regex), parts("Valve", "A"));
}

#[test]
fn qualified_marker_yields_only_the_token() {
    let regex = version_regex();
    assert_eq!(extract_group_version("Pump_rev.A_spec.pdf", &regex), parts("Pump", "A"));
    assert_eq!(extract_group_version("Pump_sub.7_spec.pdf", &regex), parts("Pump", "7"));
}

#[test]
fn name_without_marker_yields_nothing() {
    let regex = version_regex();
    assert_eq!(extract_group_version("readme.txt", &regex), None);
    assert_eq!(extract_group_version("", &regex), None);
    assert_eq!(extract_group_version("Valve_1", &regex), None);
    assert_eq!(extract_group_version("Valve_a_x.xls", &regex), None);
    assert_eq!(extract_group_version("Valve_12_x.xls", &regex), None);
    assert_eq!(extract_group_version("Valve_.A_x.xls", &regex), None);
    assert_eq!(extract_group_version("Valve_rev.AB_x.xls", &regex), None);
}

#[test]
fn qualifier_needs_its_dot() {
    let regex = version_regex();
    assert_eq!(extract_group_version("Valve_rev_A_x.xls", &regex), parts("Valve_rev", "A"));
    assert_eq!(extract_group_version("Valve_r2.A_x.xls", &regex), None);
}

#[test]
fn leftmost_marker_decides() {
    let regex = version_regex();
    assert_eq!(extract_group_version("a_1_b_2_c", &regex), parts("a", "1"));
    assert_eq!(extract_group_version("doc_x_B_3_.txt", &regex), parts("doc_x", "B"));
}

#[test]
fn adjoining_markers_share_no_underscore() {
    let regex = version_regex();
    assert_eq!(extract_group_version("a_b_C_d", &regex), parts("a_b", "C"));
    assert_eq!(extract_group_version("a_1_2_", &regex), parts("a", "1"));
}

#[test]
fn marker_at_the_start_leaves_no_group() {
    let regex = version_regex();
    assert_eq!(extract_group_version("_1_x.xls", &regex), None);
    assert_eq!(extract_group_version("_rev.B_x.xls", &regex), None);
}

#[test]
fn group_key_may_hold_any_characters() {
    let regex = version_regex();
    assert_eq!(
        extract_group_version("Gerät für Maße_3_x.pdf", &regex),
        parts("Gerät für Maße", "3")
    );
    assert_eq!(extract_group_version("图纸_rev.C_终.dwg", &regex), parts("图纸", "C"));
}

#[test]
fn extraction_gives_the_same_result_each_time() {
    let regex = version_regex();
    for name in ["Valve_1_x.xls", "Pump_rev.B_spec.pdf", "readme.txt", "图纸_rev.C_终.dwg"] {
        let first = extract_group_version(name, &regex);
        let second = extract_group_version(name, &regex);
        assert_eq!(first, second);
    }
    let again = Regex::new(VERSION_PATTERN).unwrap();
    assert_eq!(
        extract_group_version("Valve_1_x.xls", &regex),
        extract_group_version("Valve_1_x.xls", &again)
    );
}

#[test]
fn the_regex_given_decides_what_a_marker_is() {
    let regex = Regex::new(r"-v([0-9]+)\.").unwrap();
    assert_eq!(extract_group_version("report-v12.pdf", &regex), parts("report", "12"));
    assert_eq!(extract_group_version("Valve_1_x.xls", &regex), None);
}

#[test]
fn regex_without_a_capture_group_yields_nothing() {
    let regex = Regex::new(r"_[0-9A-Z]_").unwrap();
    assert_eq!(extract_group_version("Valve_1_x.xls", &regex), None);
}

#[test]
fn capture_group_that_took_no_part_yields_nothing() {
    let regex = Regex::new(r"_(?:([0-9])|[A-Z])_").unwrap();
    assert_eq!(extract_group_version("Valve_1_x.xls", &regex), parts("Valve", "1"));
    assert_eq!(extract_group_version("Valve_A_x.xls", &regex), None);
}

#[test]
fn empty_capture_yields_nothing() {
    let regex = Regex::new(r"_([0-9]*)_").unwrap();
    assert_eq!(extract_group_version("Valve__x.xls", &regex), None);
    assert_eq!(extract_group_version("Valve_42_x.xls", &regex), parts("Valve", "42"));
}

#[test]
fn split_takes_prefix_and_captured_bytes() {
    let found = MarkerMatch { start: 5, token: Some((6, 7)) };
    assert_eq!(split_at_marker("Valve_1_x.xls", &found), parts("Valve", "1"));
    let found = MarkerMatch { start: 4, token: Some((9, 10)) };
    assert_eq!(split_at_marker("Pump_rev.A_spec.pdf", &found), parts("Pump", "A"));
    let found = MarkerMatch { start: 2, token: Some((2, 13)) };
    assert_eq!(split_at_marker("Valve_1_x.xls", &found), parts("Va", "lve_1_x.xls"));
}

#[test]
fn split_refuses_a_token_that_begins_before_the_marker() {
    let found = MarkerMatch { start: 5, token: Some((4, 7)) };
    assert_eq!(split_at_marker("Valve_1_x.xls", &found), None);
    let found = MarkerMatch { start: 2, token: Some((0, 13)) };
    assert_eq!(split_at_marker("Valve_1_x.xls", &found), None);
}

#[test]
fn split_counts_bytes_not_characters() {
    // "é" takes two bytes, so the marker of "é_1_x" begins at byte 2.
    let found = MarkerMatch { start: 2, token: Some((3, 4)) };
    assert_eq!(split_at_marker("é_1_x", &found), parts("é", "1"));
}

#[test]
fn split_refuses_offsets_that_do_not_fit() {
    let name = "é_1_x";
    // inside the two bytes of "é"
    assert_eq!(split_at_marker(name, &MarkerMatch { start: 1, token: Some((3, 4)) }), None);
    assert_eq!(split_at_marker("aé_1_x", &MarkerMatch { start: 1, token: Some((2, 5)) }), None);
    assert_eq!(split_at_marker("a1é_x", &MarkerMatch { start: 1, token: Some((1, 3)) }), None);
    // beyond the end
    assert_eq!(split_at_marker(name, &MarkerMatch { start: 7, token: Some((3, 4)) }), None);
    assert_eq!(split_at_marker(name, &MarkerMatch { start: 2, token: Some((3, 7)) }), None);
    assert_eq!(split_at_marker(name, &MarkerMatch { start: 2, token: Some((8, 9)) }), None);
    // token end before its start
    assert_eq!(split_at_marker(name, &MarkerMatch { start: 2, token: Some((4, 3)) }), None);
}

#[test]
fn split_refuses_empty_parts() {
    let name = "Valve_1_x.xls";
    assert_eq!(split_at_marker(name, &MarkerMatch { start: 0, token: Some((1, 2)) }), None);
    assert_eq!(split_at_marker(name, &MarkerMatch { start: 5, token: Some((6, 6)) }), None);
    assert_eq!(split_at_marker(name, &MarkerMatch { start: 5, token: None }), None);
    assert_eq!(split_at_marker("", &MarkerMatch { start: 0, token: Some((0, 0)) }), None);
}

#[test]
fn split_reaches_the_end_of_the_name() {
    let name = "Valve_1";
    assert_eq!(
        split_at_marker(name, &MarkerMatch { start: 5, token: Some((6, 7)) }),
        parts("Valve", "1")
    );
    assert_eq!(
        split_at_marker(name, &MarkerMatch { start: 6, token: Some((6, 7)) }),
        parts("Valve_", "1")
    );
    assert_eq!(split_at_marker(name, &MarkerMatch { start: 7, token: Some((7, 7)) }), None);
}

#[test]
fn entry_keeps_the_name_as_listed() {
    let regex = version_regex();
    let entry = read_entry("Pump_rev.B_spec.pdf", &regex).unwrap();
    assert_eq!(entry.name, "Pump_rev.B_spec.pdf");
    assert_eq!(entry.group, "Pump");
    assert_eq!(entry.token, "B");
    assert_eq!(read_entry("readme.txt", &regex), None);
}
