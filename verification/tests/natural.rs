use humanesort::HumaneSortable;
use pls::natural::{compare_natural, sort_natural};

fn b(s: &str) -> Vec<u8> {
    s.as_bytes().to_vec()
}

fn sort_strs(items: &[&str]) -> Vec<String> {
    let input: Vec<Vec<u8>> = items.iter().map(|s| b(s)).collect();
    sort_natural(input)
        .into_iter()
        .map(|v| String::from_utf8(v).unwrap())
        .collect()
}

#[test]
fn numeric_runs_order_numerically() {
    // ep1, ep2, ep10: numeric, not lexical
    let sorted = sort_strs(&["ep1.mp4", "ep10.mp4", "ep2.mp4"]);
    assert_eq!(sorted, vec!["ep1.mp4", "ep2.mp4", "ep10.mp4"]);
}

#[test]
fn compare_basic_cases() {
    assert!(compare_natural(&b("ep2"), &b("ep10")) < 0);
    assert!(compare_natural(&b("ep10"), &b("ep2")) > 0);
    assert_eq!(compare_natural(&b("ep2"), &b("ep2")), 0);
    // a string that runs out of tokens first sorts first
    assert!(compare_natural(&b("ep"), &b("ep1")) < 0);
    // a digit run sorts before a non-digit run
    assert!(compare_natural(&b("1"), &b("a")) < 0);
    // leading zeros do not change the numeric value
    assert_eq!(compare_natural(&b("ep01"), &b("ep1")), 0);
    // ties on the number fall through to the following text
    assert!(compare_natural(&b("01a"), &b("1b")) < 0);
    // very long digit runs still compare by value
    assert!(compare_natural(&b("x99999999999999999999999998"), &b("x99999999999999999999999999")) < 0);
}

#[test]
fn sort_handles_text_and_numbers() {
    let sorted = sort_strs(&["11", "2", "a", "1"]);
    assert_eq!(sorted, vec!["1", "2", "11", "a"]);
}

#[test]
fn sort_empty_and_single() {
    assert_eq!(sort_strs(&[]), Vec::<String>::new());
    assert_eq!(sort_strs(&["only"]), vec!["only"]);
}

#[test]
fn order_agrees_with_reference_sorter() {
    let cases: Vec<Vec<&str>> = vec![
        vec!["something-11", "something-1", "something-2"],
        vec!["13-zzzz", "1-ffff", "12-aaaa"],
        vec!["lol-1", "lal-2"],
        vec!["b10", "b9", "a100", "a99", "c", "1", "10", "2"],
        vec!["s01e10.mkv", "s01e2.mkv", "s01e1.mkv", "s02e1.mkv"],
    ];
    for case in cases {
        let mut reference = case.clone();
        reference.humane_sort();
        let ours = sort_strs(&case);
        assert_eq!(ours, reference);
    }
}
