use std::cmp::Ordering;

use gideon_core::natsort::natural_cmp;
use gideon_core::sorting::{sorted_positions, sorted_texts, Collation};

fn sorted(mut v: Vec<&str>) -> Vec<&str> {
    v.sort_by(|a, b| natural_cmp(a, b));
    v
}

fn owned(v: &[&str]) -> Vec<String> {
    v.iter().map(|s| s.to_string()).collect()
}

#[test]
fn numeric_runs_sort_by_value() {
    assert_eq!(
        sorted(vec!["page10.jpg", "page2.jpg", "page1.jpg"]),
        vec!["page1.jpg", "page2.jpg", "page10.jpg"]
    );
}

#[test]
fn case_insensitive() {
    assert_eq!(
        sorted(vec!["B.png", "a.png", "C.png"]),
        vec!["a.png", "B.png", "C.png"]
    );
}

#[test]
fn leading_zeros_are_equivalent() {
    assert_eq!(
        sorted(vec!["007.png", "8.png", "06.png"]),
        vec!["06.png", "007.png", "8.png"]
    );
}

#[test]
fn mixed_segments() {
    assert_eq!(
        sorted(vec![
            "v2c10p3.jpg",
            "v2c2p1.jpg",
            "v10c1p1.jpg",
            "v2c10p1.jpg"
        ]),
        vec!["v2c2p1.jpg", "v2c10p1.jpg", "v2c10p3.jpg", "v10c1p1.jpg"]
    );
}

#[test]
fn huge_numbers_do_not_overflow() {
    assert_eq!(
        sorted(vec!["99999999999999999999999999.png", "2.png"]),
        vec!["2.png", "99999999999999999999999999.png"]
    );
}

#[test]
fn directory_prefixes() {
    assert_eq!(
        sorted(vec![
            "ch2/01.png",
            "ch10/01.png",
            "ch1/02.png",
            "ch1/01.png"
        ]),
        vec!["ch1/01.png", "ch1/02.png", "ch2/01.png", "ch10/01.png"]
    );
}

#[test]
fn a_prefix_comes_first_and_equal_texts_are_equal() {
    assert_eq!(natural_cmp("", ""), Ordering::Equal);
    assert_eq!(natural_cmp("", "a"), Ordering::Less);
    assert_eq!(natural_cmp("ab", "a"), Ordering::Greater);
    assert_eq!(natural_cmp("Page 007", "page 7"), Ordering::Equal);
    assert_eq!(natural_cmp("000", "0"), Ordering::Equal);
}

#[test]
fn numbers_stand_where_digits_do_among_symbols() {
    assert_eq!(natural_cmp("1", "!"), Ordering::Greater);
    assert_eq!(natural_cmp("1", ":"), Ordering::Less);
    assert_eq!(natural_cmp("x2", "xa"), Ordering::Less);
}

#[test]
fn swapping_flips_and_order_is_transitive() {
    let names = ["p10", "P2", "p02x", "q", "p", "10", "é1", "9"];
    for a in names {
        for b in names {
            assert_eq!(natural_cmp(a, b), natural_cmp(b, a).reverse());
            for c in names {
                if natural_cmp(a, b) != Ordering::Greater && natural_cmp(b, c) != Ordering::Greater
                {
                    assert_ne!(natural_cmp(a, c), Ordering::Greater, "{a} {b} {c}");
                }
            }
        }
    }
}

#[test]
fn letter_case_and_leading_zeros_do_not_count() {
    for other in ["page 7", "PAGE 8", "x", "", "Page 0007b"] {
        assert_eq!(natural_cmp("Page 7B", other), natural_cmp("page 7b", other));
        assert_eq!(natural_cmp("page 007b", other), natural_cmp("page 7b", other));
    }
    assert_eq!(natural_cmp("page 105", "page 15"), Ordering::Greater);
}

#[test]
fn sorting_is_stable() {
    let keys = owned(&["b1", "A01", "a1", "a001", "B01"]);
    assert_eq!(
        sorted_positions(&keys, Collation::Natural),
        vec![1, 2, 3, 0, 4]
    );
    assert_eq!(
        sorted_texts(&keys, Collation::Natural),
        owned(&["A01", "a1", "a001", "b1", "B01"])
    );
    assert_eq!(
        sorted_texts(&keys, Collation::Plain),
        owned(&["A01", "B01", "a001", "a1", "b1"])
    );
    assert!(sorted_texts(&Vec::new(), Collation::Natural).is_empty());
}
