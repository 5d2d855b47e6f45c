use comicinfo_generator::rules::{
    find_date, find_summary, find_volume, rule_range_overlaps, volume_value_duplicated,
};

fn row(cells: &[&str]) -> Vec<String> {
    cells.iter().map(|s| s.to_string()).collect()
}

#[test]
fn the_first_rule_that_covers_a_number_counts() {
    let rules = vec![row(&["1", "10", "1"]), row(&["5", "20", "2"])];
    assert_eq!(find_volume("7", &rules), Some("1".to_string()));
    assert_eq!(find_volume("11", &rules), Some("2".to_string()));
    assert_eq!(find_volume("10.0", &rules), Some("1".to_string()));
    assert_eq!(find_volume("nan", &rules), None);
}

#[test]
fn ends_that_are_no_numbers_leave_nothing_covered() {
    // The lower end counts as the largest number, and the upper end as the smallest.
    let rules = vec![row(&["", "10", "1"]), row(&["1", "x", "2"])];
    assert_eq!(find_volume("5", &rules), None);
}

#[test]
fn dates_need_five_columns_and_count_as_zero_where_they_are_no_numbers() {
    let rules = vec![row(&["1", "2", "2020", "x"]), row(&["1", "2", "2020", "x", "16"])];
    assert_eq!(find_date("1", &rules), Some((2020, 0, 16)));
    assert_eq!(find_date("3", &rules), None);
    assert_eq!(find_date("x", &rules), None);
    assert_eq!(find_summary("1", &rules), Some("2020".to_string()));
}

#[test]
fn ranges_that_meet_are_told() {
    let rules = vec![row(&["1", "4", "1"]), row(&["5", "8.5", "2"]), row(&["x", "9", "3"])];
    assert!(rule_range_overlaps(&row(&["4", "4.5"]), &rules, None));
    assert!(!rule_range_overlaps(&row(&["4.1", "4.9"]), &rules, None));
    // The ends may be given in either order.
    assert!(rule_range_overlaps(&row(&["9", "8"]), &rules, None));
    assert!(!rule_range_overlaps(&row(&["1", "4"]), &rules, Some(0)));
    assert!(rule_range_overlaps(&row(&["1", "5"]), &rules, Some(0)));
    assert!(!rule_range_overlaps(&row(&["9"]), &rules, None));
    assert!(!rule_range_overlaps(&row(&["a", "9"]), &rules, None));
}

#[test]
fn volumes_that_are_taken_are_told() {
    let rules = vec![row(&["1", "4", "1"]), row(&["5", "8", " 2 "])];
    assert!(volume_value_duplicated(&row(&["9", "10", "2"]), &rules, None));
    assert!(!volume_value_duplicated(&row(&["9", "10", "02"]), &rules, None));
    assert!(!volume_value_duplicated(&row(&["5", "8", "2"]), &rules, Some(1)));
    assert!(!volume_value_duplicated(&row(&["9", "10", " "]), &rules, None));
    assert!(!volume_value_duplicated(&row(&["9", "10"]), &rules, None));
}

#[test]
fn rules_that_share_a_number_overlap() {
    let rules = vec![row(&["1", "4", "1"]), row(&[" 5", "8 ", "2"]), row(&["8", "9", "3"])];
    let values = row(&["4", "4", "9"]);
    assert!(find_volume("4", &vec![values.clone()]).is_some());
    assert!(find_volume("4", &vec![rules[0].clone()]).is_some());
    assert!(rule_range_overlaps(&values, &rules, None));
    // A cell with blanks around its number is found for none, and still counts as taken.
    assert_eq!(find_volume("6", &rules), None);
    assert!(rule_range_overlaps(&row(&["6", "7", "9"]), &rules, None));
    assert!(!rule_range_overlaps(&values, &vec![rules[0].clone()], Some(0)));
    for (a, b) in [("0", "1"), ("4.5", "4.9"), ("-3", "7"), ("10", "10")] {
        assert_eq!(
            rule_range_overlaps(&row(&[a, b]), &rules, None),
            rule_range_overlaps(&row(&[b, a]), &rules, None)
        );
    }
}
