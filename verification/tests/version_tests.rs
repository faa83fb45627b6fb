use grind::version::{compare_maven_versions, extract_tokens, qualifier_rank, split_token};
use std::cmp::Ordering;

#[test]
fn test_mixed_versions() {
    let cases = vec![
        ("9.4.6.v20170531", "9.4.6.v20170530", Ordering::Greater),
        ("9.4.6.v20170531", "9.4.6", Ordering::Greater),
        ("9.4.6.v20170531", "9.4.6.v20170531", Ordering::Equal),
        ("1.0-RC1", "1.0-RC2", Ordering::Less),
        ("1.0-RC1", "1.0", Ordering::Less),
        ("1.0.0", "1.0", Ordering::Equal),
        ("1.0-SNAPSHOT", "1.0", Ordering::Less),
        ("2.0", "1.9.9", Ordering::Greater),
        ("3.5.3", "4.0.0-M3", Ordering::Less),
    ];

    for (a, b, expected) in cases {
        let result = compare_maven_versions(a, b);
        assert_eq!(
            result, expected,
            "compare_maven_versions('{}', '{}') returned {:?}, expected {:?}",
            a, b, result, expected
        );
    }
}

#[test]
fn qualifier_ranks_follow_the_table() {
    assert_eq!(qualifier_rank("SNAPSHOT"), 1);
    assert_eq!(qualifier_rank("alpha"), 2);
    assert_eq!(qualifier_rank("A"), 2);
    assert_eq!(qualifier_rank("Beta"), 3);
    assert_eq!(qualifier_rank("b"), 3);
    assert_eq!(qualifier_rank("milestone"), 4);
    assert_eq!(qualifier_rank("M"), 4);
    assert_eq!(qualifier_rank("rc"), 5);
    assert_eq!(qualifier_rank("CR"), 5);
    assert_eq!(qualifier_rank(""), 6);
    assert_eq!(qualifier_rank("final"), 6);
    assert_eq!(qualifier_rank("GA"), 6);
    assert_eq!(qualifier_rank("release"), 6);
    assert_eq!(qualifier_rank("sp"), 7);
    assert_eq!(qualifier_rank("v"), 8);
    assert_eq!(qualifier_rank("jre"), 8);
}

#[test]
fn tokens_split_into_number_qualifier_and_number() {
    assert_eq!(split_token("12"), (12, String::new(), 0));
    assert_eq!(split_token("RC1"), (0, "RC".to_string(), 1));
    assert_eq!(split_token("v20170531"), (0, "v".to_string(), 20170531));
    assert_eq!(split_token("3beta2"), (3, "beta".to_string(), 2));
    assert_eq!(split_token("a1b2"), (0, "ab".to_string(), 12));
    assert_eq!(split_token(""), (0, String::new(), 0));
    assert_eq!(split_token("1+2"), (12, String::new(), 0));
}

#[test]
fn numbers_beyond_64_bits_count_as_zero() {
    assert_eq!(split_token("18446744073709551615"), (u64::MAX, String::new(), 0));
    assert_eq!(split_token("18446744073709551616"), (0, String::new(), 0));
    assert_eq!(
        split_token("x99999999999999999999999"),
        (0, "x".to_string(), 0)
    );
}

#[test]
fn versions_are_cut_at_dot_dash_and_underscore() {
    assert_eq!(
        extract_tokens("1.2-RC3_4"),
        vec![
            (1, String::new(), 0),
            (2, String::new(), 0),
            (0, "RC".to_string(), 3),
            (4, String::new(), 0),
        ]
    );
    assert_eq!(extract_tokens(""), vec![(0, String::new(), 0)]);
    assert_eq!(extract_tokens("1..2").len(), 3);
}

#[test]
fn version_order_is_a_total_order_on_samples() {
    let samples = vec![
        "1.0-SNAPSHOT", "1.0-alpha", "1.0-a2", "1.0-beta", "1.0-M1", "1.0-RC1", "1.0-RC2", "1.0",
        "1.0.0", "1.0-final", "1.0-sp", "1.0-xyz", "1.0.1", "1.1", "2.0", "1.9.9", "9.4.6.v20170531",
    ];
    for a in &samples {
        assert_eq!(compare_maven_versions(a, a), Ordering::Equal);
        for b in &samples {
            let ab = compare_maven_versions(a, b);
            let ba = compare_maven_versions(b, a);
            assert_eq!(ab, ba.reverse());
            for c in &samples {
                let bc = compare_maven_versions(b, c);
                let ac = compare_maven_versions(a, c);
                if ab != Ordering::Greater && bc != Ordering::Greater {
                    assert_ne!(ac, Ordering::Greater);
                }
                if ab == Ordering::Less && bc == Ordering::Less {
                    assert_eq!(ac, Ordering::Less);
                }
            }
        }
    }
}

#[test]
fn qualifier_spelling_breaks_ties() {
    assert_eq!(compare_maven_versions("1.0-foo", "1.0-bar"), Ordering::Greater);
    assert_eq!(compare_maven_versions("1.0-ga", "1.0-final"), Ordering::Greater);
    assert_eq!(compare_maven_versions("1.0-rc", "1.0-cr"), Ordering::Greater);
}
