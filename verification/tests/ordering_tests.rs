use solvers::ordering::{check_manual, fix_manual, middle_value, score_manuals, IndexValueMap, RuleMap};
use solvers::ordering::parse_sequence;

#[test]
fn test_add() {
    let manual = "97,13,75,29,47";
    let rulesstr = "47|53
97|13
97|61
97|47
75|29
61|13
75|53
29|13
97|29
53|29
61|53
97|53
61|29
47|13
75|47
97|75
47|61
75|61
47|29
75|13
53|13";
    let rulemap = RuleMap::new(&rulesstr);
    println!("Testing {}", manual);
    let vecman: Vec<usize> = manual
        .split(",")
        .map(|x| x.parse::<usize>().unwrap())
        .collect();
    let fixed = fix_manual(&vecman, &rulemap).expect("repair should converge");
    println!("Fixed {} -> {:?}", manual, fixed);
    assert!(check_manual(&fixed, &rulemap));
    assert_eq!(fixed, vec![97, 75, 47, 29, 13]);
}

#[test]
fn repair_example_sequence() {
    let rules = RuleMap::new("1|2 2|3");
    let manual: Vec<usize> = vec![3, 1, 2];
    assert!(!check_manual(&manual, &rules));
    let fixed = fix_manual(&manual, &rules).expect("acyclic rules should repair");
    assert_eq!(fixed, vec![1, 2, 3]);
    assert_eq!(middle_value(&fixed), 2);
}

#[test]
fn middle_values() {
    assert_eq!(middle_value(&vec![1, 2, 3]), 2);
    assert_eq!(middle_value(&vec![1, 2, 3, 4]), 2);
    assert_eq!(middle_value(&vec![7]), 7);
}

#[test]
fn recheck_valid_sequence() {
    let rules = RuleMap::new("1|2 2|3");
    let manual: Vec<usize> = vec![1, 2, 3];
    assert!(check_manual(&manual, &rules));
    assert!(check_manual(&manual, &rules));
}

#[test]
fn repair_keeps_valid_sequence_valid() {
    let rules = RuleMap::new("1|2 2|3");
    let manual: Vec<usize> = vec![1, 2, 3];
    let fixed = fix_manual(&manual, &rules).expect("valid input repairs");
    assert!(check_manual(&fixed, &rules));
    let mut sorted_fixed = fixed.clone();
    sorted_fixed.sort();
    assert_eq!(sorted_fixed, vec![1, 2, 3]);
}

#[test]
fn malformed_rule_tokens_are_skipped() {
    let rules = RuleMap::new("1|2 bad 3|4x 5|6 7|8|9");
    assert_eq!(rules.len(), 2);
    assert!(rules.contains_rule(1, 2));
    assert!(rules.contains_rule(5, 6));
    assert!(!rules.contains_rule(3, 4));
    assert!(!rules.contains_rule(7, 8));
}

#[test]
fn parse_sequence_skips_malformed_entries() {
    assert_eq!(parse_sequence("97,13,75"), vec![97, 13, 75]);
    assert_eq!(parse_sequence(",,5,,"), vec![5]);
    assert_eq!(parse_sequence("a,5,b"), vec![5]);
    assert_eq!(parse_sequence(""), Vec::<usize>::new());
}

#[test]
fn index_value_map_moves_elements() {
    let mut m = IndexValueMap::new(vec![1, 2, 3]);
    m.move_element(2, 0);
    assert_eq!(m.get_elements(), vec![3, 1, 2]);
    let probe = IndexValueMap::new(vec![10, 20, 30]);
    assert_eq!(probe.index_of(20), Some(1));
    assert_eq!(probe.index_of(40), None);
}

#[test]
fn contradictory_rules_report_failure() {
    let rules = RuleMap::new("1|2 2|1");
    let manual: Vec<usize> = vec![1, 2];
    assert_eq!(fix_manual(&manual, &rules), None);
}

#[test]
fn example_manual_scores() {
    let rulesstr = "47|53 97|13 97|61 97|47 75|29 61|13 75|53 29|13 97|29 53|29 61|53 97|53 61|29 47|13 75|47 97|75 47|61 75|61 47|29 75|13 53|13";
    let rulemap = RuleMap::new(rulesstr);
    let manuals: Vec<Vec<usize>> = vec![
        vec![75, 47, 61, 53, 29],
        vec![97, 61, 53, 29, 13],
        vec![75, 29, 13],
        vec![75, 97, 47, 61, 53],
        vec![61, 13, 29],
        vec![97, 13, 75, 29, 47],
    ];
    assert_eq!(score_manuals(&manuals, &rulemap), Some((143, 123)));
}

#[test]
fn repair_partial_order_rules() {
    let rules = RuleMap::new("1|2");
    let manual: Vec<usize> = vec![2, 3, 1];
    let fixed = fix_manual(&manual, &rules).expect("acyclic rules repair");
    assert!(check_manual(&fixed, &rules));
    let mut sorted_fixed = fixed.clone();
    sorted_fixed.sort();
    assert_eq!(sorted_fixed, vec![1, 2, 3]);
}
