use keep_newest::entry::Entry;
use keep_newest::marker::version_regex;
use keep_newest::plan::{
    collect_entries, distinct_groups, entry_names, holds_key, members_of, plan_directory,
    plan_entries, plan_group, GroupPlan, PlanError,
};
use keep_newest::sorting::{compares_with_all, find_insert_position, sort_entries};
use keep_newest::version::{compare_versions, VersionParseOverflow};
use regex::Regex;
use std::cmp::Ordering;

fn names(list: &[&str]) -> Vec<String> {
    list.iter().map(|name| name.to_string()).collect()
}

fn entry(name: &str, group: &str, token: &str) -> Entry {
    Entry { name: name.to_string(), group: group.to_string(), token: token.to_string() }
}

fn plan(group: &str, retain: &str, relocate: &[&str]) -> GroupPlan {
    GroupPlan { group: group.to_string(), retain: retain.to_string(), relocate: names(relocate) }
}

fn long_tokens() -> Regex {
    Regex::new(r"_([0-9A-Z]+)_").unwrap()
}

#[test]
fn valve_keeps_the_highest_number() {
    let regex = version_regex();
    let listing = names(&["Valve_1_x.xls", "Valve_2_x.xls", "Valve_A_x.xls"]);
    let plans = plan_directory(&listing, &regex).unwrap();
    assert_eq!(plans, vec![plan("Valve", "Valve_2_x.xls", &["Valve_A_x.xls", "Valve_1_x.xls"])]);
}

#[test]
fn valve_plan_holds_in_any_listing_order() {
    let regex = version_regex();
    let orders = [
        ["Valve_1_x.xls", "Valve_2_x.xls", "Valve_A_x.xls"],
        ["Valve_1_x.xls", "Valve_A_x.xls", "Valve_2_x.xls"],
        ["Valve_2_x.xls", "Valve_1_x.xls", "Valve_A_x.xls"],
        ["Valve_2_x.xls", "Valve_A_x.xls", "Valve_1_x.xls"],
        ["Valve_A_x.xls", "Valve_1_x.xls", "Valve_2_x.xls"],
        ["Valve_A_x.xls", "Valve_2_x.xls", "Valve_1_x.xls"],
    ];
    for order in orders {
        let plans = plan_directory(&names(&order), &regex).unwrap();
        assert_eq!(
            plans,
            vec![plan("Valve", "Valve_2_x.xls", &["Valve_A_x.xls", "Valve_1_x.xls"])]
        );
    }
}

#[test]
fn pump_keeps_the_later_letter() {
    let regex = version_regex();
    let listing = names(&["Pump_rev.A_spec.pdf", "Pump_rev.B_spec.pdf"]);
    let plans = plan_directory(&listing, &regex).unwrap();
    assert_eq!(plans, vec![plan("Pump", "Pump_rev.B_spec.pdf", &["Pump_rev.A_spec.pdf"])]);
    let listing = names(&["Pump_rev.B_spec.pdf", "Pump_rev.A_spec.pdf"]);
    let plans = plan_directory(&listing, &regex).unwrap();
    assert_eq!(plans, vec![plan("Pump", "Pump_rev.B_spec.pdf", &["Pump_rev.A_spec.pdf"])]);
}

#[test]
fn lone_unmatched_file_is_left_out() {
    let regex = version_regex();
    let plans = plan_directory(&names(&["readme.txt"]), &regex).unwrap();
    assert_eq!(plans, vec![]);
}

#[test]
fn two_groups_are_planned_apart() {
    let regex = version_regex();
    let listing = names(&[
        "Valve_1_x.xls",
        "Pump_rev.A_spec.pdf",
        "Valve_2_x.xls",
        "readme.txt",
        "Pump_rev.B_spec.pdf",
        "Valve_A_x.xls",
    ]);
    let plans = plan_directory(&listing, &regex).unwrap();
    assert_eq!(
        plans,
        vec![
            plan("Valve", "Valve_2_x.xls", &["Valve_A_x.xls", "Valve_1_x.xls"]),
            plan("Pump", "Pump_rev.B_spec.pdf", &["Pump_rev.A_spec.pdf"]),
        ]
    );
    let valve_alone =
        plan_directory(&names(&["Valve_1_x.xls", "Valve_2_x.xls", "Valve_A_x.xls"]), &regex)
            .unwrap();
    let pump_alone =
        plan_directory(&names(&["Pump_rev.A_spec.pdf", "Pump_rev.B_spec.pdf"]), &regex).unwrap();
    assert_eq!(plans[0], valve_alone[0]);
    assert_eq!(plans[1], pump_alone[0]);
}

#[test]
fn empty_listing_gives_no_plan() {
    let regex = version_regex();
    assert_eq!(plan_directory(&names(&[]), &regex), Ok(vec![]));
}

#[test]
fn single_member_is_retained_and_nothing_relocated() {
    let regex = version_regex();
    let plans = plan_directory(&names(&["Valve_1_x.xls", "notes.md"]), &regex).unwrap();
    assert_eq!(plans, vec![plan("Valve", "Valve_1_x.xls", &[])]);
}

#[test]
fn unmatched_files_appear_in_no_plan() {
    let regex = version_regex();
    let listing = names(&["readme.txt", "Valve_1_x.xls", "Valve_a_x.xls", "Valve_2_x.xls", "_3_x"]);
    let plans = plan_directory(&listing, &regex).unwrap();
    assert_eq!(plans, vec![plan("Valve", "Valve_2_x.xls", &["Valve_1_x.xls"])]);
}

#[test]
fn planning_twice_gives_the_same_plan() {
    let regex = version_regex();
    let listing = names(&[
        "Valve_1_x.xls",
        "Valve_1_y.xls",
        "Pump_rev.A_spec.pdf",
        "Valve_A_x.xls",
        "readme.txt",
        "Pump_rev.B_spec.pdf",
    ]);
    let first = plan_directory(&listing, &regex);
    let second = plan_directory(&listing, &regex);
    assert_eq!(first, second);
    assert!(first.is_ok());
}

#[test]
fn retained_file_is_at_least_as_new_as_each_relocated_one() {
    let regex = version_regex();
    let listing = names(&[
        "Valve_B_x.xls",
        "Valve_7_x.xls",
        "Valve_A_x.xls",
        "Valve_rev.9_x.xls",
        "Valve_3_x.xls",
        "Pump_Z_a",
        "Pump_A_a",
        "Pump_0_a",
        "Pump_0_b",
    ]);
    let plans = plan_directory(&listing, &regex).unwrap();
    assert_eq!(plans.len(), 2);
    let mut planned = 0;
    for plan in &plans {
        for older in &plan.relocate {
            let order = compare_versions(&plan.retain, older, &regex);
            assert_ne!(order, Ordering::Less);
            assert!(!plan.relocate.contains(&plan.retain));
        }
        planned += 1 + plan.relocate.len();
    }
    assert_eq!(planned, listing.len());
    assert_eq!(plans[0].retain, "Valve_rev.9_x.xls");
    assert_eq!(
        plans[0].relocate,
        names(&["Valve_A_x.xls", "Valve_B_x.xls", "Valve_3_x.xls", "Valve_7_x.xls"])
    );
    assert_eq!(plans[1].retain, "Pump_0_b");
    assert_eq!(plans[1].relocate, names(&["Pump_A_a", "Pump_Z_a", "Pump_0_a"]));
}

#[test]
fn among_equal_versions_the_last_listed_is_retained() {
    let regex = version_regex();
    let listing = names(&["Valve_2_a", "Valve_1_a", "Valve_2_b", "Valve_1_b"]);
    let plans = plan_directory(&listing, &regex).unwrap();
    assert_eq!(plans, vec![plan("Valve", "Valve_2_b", &["Valve_1_a", "Valve_1_b", "Valve_2_a"])]);
}

#[test]
fn groups_come_in_order_of_first_occurrence() {
    let regex = version_regex();
    let listing = names(&["c_1_", "a_1_", "b_1_", "a_2_", "c_2_"]);
    let plans = plan_directory(&listing, &regex).unwrap();
    assert_eq!(
        plans,
        vec![plan("c", "c_2_", &["c_1_"]), plan("a", "a_2_", &["a_1_"]), plan("b", "b_1_", &[])]
    );
}

#[test]
fn group_keys_are_told_apart_by_case() {
    let regex = version_regex();
    let listing = names(&["valve_1_x", "Valve_2_x"]);
    let plans = plan_directory(&listing, &regex).unwrap();
    assert_eq!(plans, vec![plan("valve", "valve_1_x", &[]), plan("Valve", "Valve_2_x", &[])]);
}

#[test]
fn numbers_with_several_digits_go_by_value() {
    let listing = names(&["Valve_10_x", "Valve_9_x", "Valve_AA_x", "Valve_B_x", "Valve_100_x"]);
    let plans = plan_directory(&listing, &long_tokens()).unwrap();
    assert_eq!(
        plans,
        vec![plan("Valve", "Valve_100_x", &["Valve_AA_x", "Valve_B_x", "Valve_9_x", "Valve_10_x"])]
    );
}

#[test]
fn two_numbers_of_which_one_does_not_fit_stop_the_plan() {
    let listing = names(&["Pump_1_x", "Valve_2147483648_x", "Pump_2_x", "Valve_1_x"]);
    assert_eq!(
        plan_directory(&listing, &long_tokens()),
        Err(PlanError::VersionParseOverflow { group: "Valve".to_string() })
    );
}

#[test]
fn first_group_that_cannot_be_ordered_is_named() {
    let listing = names(&[
        "Pump_1_x",
        "Valve_2147483648_x",
        "Gate_99999999999_x",
        "Gate_5_x",
        "Valve_1_x",
    ]);
    assert_eq!(
        plan_directory(&listing, &long_tokens()),
        Err(PlanError::VersionParseOverflow { group: "Valve".to_string() })
    );
}

#[test]
fn lone_number_that_does_not_fit_is_still_the_newest() {
    let listing = names(&["Valve_A_x", "Valve_2147483648_x", "Valve_B_x"]);
    let plans = plan_directory(&listing, &long_tokens()).unwrap();
    assert_eq!(plans, vec![plan("Valve", "Valve_2147483648_x", &["Valve_A_x", "Valve_B_x"])]);
    let plans = plan_directory(&names(&["Valve_2147483648_x"]), &long_tokens()).unwrap();
    assert_eq!(plans, vec![plan("Valve", "Valve_2147483648_x", &[])]);
}

#[test]
fn entries_are_collected_in_listing_order() {
    let regex = version_regex();
    let listing = names(&["Valve_1_x.xls", "readme.txt", "Pump_rev.B_spec.pdf"]);
    assert_eq!(
        collect_entries(&listing, &regex),
        vec![
            entry("Valve_1_x.xls", "Valve", "1"),
            entry("Pump_rev.B_spec.pdf", "Pump", "B"),
        ]
    );
}

#[test]
fn group_keys_are_listed_once() {
    let entries = vec![
        entry("b_1_", "b", "1"),
        entry("a_1_", "a", "1"),
        entry("b_2_", "b", "2"),
        entry("a_2_", "a", "2"),
    ];
    assert_eq!(distinct_groups(&entries), names(&["b", "a"]));
    assert_eq!(distinct_groups(&vec![]), names(&[]));
}

#[test]
fn key_is_found_among_keys() {
    let keys = names(&["Valve", "Pump"]);
    assert!(holds_key(&keys, &"Pump".to_string()));
    assert!(!holds_key(&keys, &"pump".to_string()));
    assert!(!holds_key(&names(&[]), &"Pump".to_string()));
}

#[test]
fn members_are_the_entries_of_one_group() {
    let entries = vec![
        entry("b_1_", "b", "1"),
        entry("a_1_", "a", "1"),
        entry("b_2_", "b", "2"),
    ];
    assert_eq!(
        members_of(&entries, &"b".to_string()),
        vec![entry("b_1_", "b", "1"), entry("b_2_", "b", "2")]
    );
    assert_eq!(members_of(&entries, &"c".to_string()), vec![]);
}

#[test]
fn names_are_taken_in_order() {
    let entries = vec![entry("b_1_", "b", "1"), entry("a_1_", "a", "1")];
    assert_eq!(entry_names(&entries), names(&["b_1_", "a_1_"]));
}

#[test]
fn sorting_is_ascending_and_keeps_ties_in_order() {
    let entries = vec![
        entry("v_2_a", "v", "2"),
        entry("v_B_a", "v", "B"),
        entry("v_1_a", "v", "1"),
        entry("v_2_b", "v", "2"),
        entry("v_A_a", "v", "A"),
        entry("v_B_b", "v", "B"),
        entry("v_02_c", "v", "02"),
    ];
    let sorted = sort_entries(entries).unwrap();
    assert_eq!(
        entry_names(&sorted),
        names(&["v_A_a", "v_B_a", "v_B_b", "v_1_a", "v_2_a", "v_2_b", "v_02_c"])
    );
}

#[test]
fn sorting_goes_by_group_key_first() {
    let entries = vec![
        entry("b_1_", "b", "1"),
        entry("a_9_", "a", "9"),
        entry("b_A_", "b", "A"),
        entry("a_2_", "a", "2"),
    ];
    let sorted = sort_entries(entries).unwrap();
    assert_eq!(entry_names(&sorted), names(&["a_2_", "a_9_", "b_A_", "b_1_"]));
}

#[test]
fn sorting_a_sorted_sequence_changes_nothing() {
    let entries = || {
        vec![
            entry("v_A_", "v", "A"),
            entry("v_1_", "v", "1"),
            entry("v_1_b", "v", "1"),
            entry("v_3_", "v", "3"),
        ]
    };
    assert_eq!(sort_entries(entries()), Ok(entries()));
    assert_eq!(sort_entries(vec![]), Ok(vec![]));
}

#[test]
fn sorting_fails_where_two_entries_cannot_be_compared() {
    let entries = vec![
        entry("v_1_", "v", "1"),
        entry("v_A_", "v", "A"),
        entry("v_4294967296_", "v", "4294967296"),
    ];
    assert_eq!(sort_entries(entries), Err(VersionParseOverflow));
    let entries = vec![
        entry("w_1_", "w", "1"),
        entry("v_A_", "v", "A"),
        entry("v_4294967296_", "v", "4294967296"),
    ];
    assert_eq!(
        sort_entries(entries).map(|sorted| entry_names(&sorted)),
        Ok(names(&["v_A_", "v_4294967296_", "w_1_"]))
    );
}

#[test]
fn insert_position_is_behind_the_strictly_older() {
    let sorted = vec![
        entry("v_A_", "v", "A"),
        entry("v_1_", "v", "1"),
        entry("v_1_b", "v", "1"),
        entry("v_3_", "v", "3"),
    ];
    assert_eq!(find_insert_position(&entry("v_0_", "v", "0"), &sorted), 1);
    assert_eq!(find_insert_position(&entry("v_1_c", "v", "1"), &sorted), 1);
    assert_eq!(find_insert_position(&entry("v_2_", "v", "2"), &sorted), 3);
    assert_eq!(find_insert_position(&entry("v_9_", "v", "9"), &sorted), 4);
    assert_eq!(find_insert_position(&entry("v_0_", "v", "0"), &vec![]), 0);
    assert_eq!(find_insert_position(&entry("u_9_", "u", "9"), &sorted), 0);
}

#[test]
fn one_entry_compares_with_all_others_or_not() {
    let others = vec![entry("v_A_", "v", "A"), entry("v_1_", "v", "1")];
    assert!(compares_with_all(&entry("v_2_", "v", "2"), &others));
    assert!(!compares_with_all(&entry("v_4294967296_", "v", "4294967296"), &others));
    assert!(compares_with_all(&entry("w_4294967296_", "w", "4294967296"), &others));
    assert!(compares_with_all(&entry("v_4294967296_", "v", "4294967296"), &vec![]));
}

#[test]
fn group_plan_retains_the_last_of_the_sorted() {
    let group = vec![
        entry("v_2_a", "v", "2"),
        entry("v_A_a", "v", "A"),
        entry("v_1_a", "v", "1"),
    ];
    assert_eq!(
        plan_group("v".to_string(), group),
        Ok(plan("v", "v_2_a", &["v_A_a", "v_1_a"]))
    );
    assert_eq!(
        plan_group("v".to_string(), vec![entry("v_2_a", "v", "2")]),
        Ok(plan("v", "v_2_a", &[]))
    );
}

#[test]
fn group_plan_fails_where_members_cannot_be_compared() {
    let group = vec![entry("v_1_", "v", "1"), entry("v_4294967296_", "v", "4294967296")];
    assert_eq!(
        plan_group("v".to_string(), group),
        Err(PlanError::VersionParseOverflow { group: "v".to_string() })
    );
}

#[test]
fn entries_are_planned_group_by_group() {
    let entries = vec![
        entry("b_1_", "b", "1"),
        entry("a_1_", "a", "1"),
        entry("b_2_", "b", "2"),
    ];
    assert_eq!(
        plan_entries(&entries),
        Ok(vec![plan("b", "b_2_", &["b_1_"]), plan("a", "a_1_", &[])])
    );
    assert_eq!(plan_entries(&vec![]), Ok(vec![]));
}
