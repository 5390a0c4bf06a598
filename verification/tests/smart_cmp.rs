use comic_sync::smart_cmp::smart_cmp;
use std::cmp::Ordering;

#[test]
fn test_smart_cmp() {
    assert_eq!(smart_cmp("ch10_p9.jpg", "ch2_p9.jpg"), Ordering::Greater);
    assert_eq!(smart_cmp("ch1_p8.jpg", "ch1_p9.jpg"), Ordering::Less);
    assert_eq!(smart_cmp("ch10_p9.jpg", "ch10_p9.jpg"), Ordering::Equal);
    assert_eq!(
        smart_cmp("c166 (v21) - p000.jpg", "c166 (v21) - p000x1.png"),
        Ordering::Less
    );
    assert_eq!(
        smart_cmp("c166 (v21) - p000x2.jpg", "c166 (v21) - p001.jpg"),
        Ordering::Less
    );
}

#[test]
fn swapped_arguments_swap_the_answer() {
    assert_eq!(
        smart_cmp("c166 (v21) - p001.jpg", "c166 (v21) - p000x2.jpg"),
        Ordering::Greater
    );
    assert_eq!(smart_cmp("ch2_p9.jpg", "ch10_p9.jpg"), Ordering::Less);
}

#[test]
fn digit_runs_compare_numerically() {
    assert_eq!(smart_cmp("1-456", "1-7"), Ordering::Greater);
    assert_eq!(smart_cmp("1-7", "1-456"), Ordering::Less);
    assert_eq!(smart_cmp("page2", "page10"), Ordering::Less);
}

#[test]
fn leading_zeros_compare_by_value() {
    assert_eq!(smart_cmp("007", "7"), Ordering::Equal);
    assert_eq!(smart_cmp("007", "8"), Ordering::Less);
    assert_eq!(smart_cmp("010", "9"), Ordering::Greater);
    assert_eq!(smart_cmp("p007x", "p7y"), Ordering::Less);
}

#[test]
fn runs_longer_than_any_machine_integer() {
    // sixty digits: far past what fits in 64 bits, still ordered by value
    let small = "1000000000000000000000000000000000000000000000000000000000000";
    let large = "1000000000000000000000000000000000000000000000000000000000001";
    assert_eq!(smart_cmp(small, large), Ordering::Less);
    assert_eq!(smart_cmp(large, small), Ordering::Greater);
    assert_eq!(smart_cmp(small, small), Ordering::Equal);
}

#[test]
fn exhausted_string_sorts_first() {
    assert_eq!(smart_cmp("", ""), Ordering::Equal);
    assert_eq!(smart_cmp("", "a"), Ordering::Less);
    assert_eq!(smart_cmp("a", ""), Ordering::Greater);
    assert_eq!(smart_cmp("abc", "abcd"), Ordering::Less);
}

#[test]
fn non_digits_compare_by_code_point() {
    assert_eq!(smart_cmp("a", "b"), Ordering::Less);
    assert_eq!(smart_cmp("Z", "a"), Ordering::Less);
    assert_eq!(smart_cmp("a.", "a "), Ordering::Greater);
}

#[test]
fn order_laws_on_samples() {
    // antisymmetry on a pair, transitivity on a chain
    let a = "ch1_p8.jpg";
    let b = "ch1_p9.jpg";
    let c = "ch10_p1.jpg";
    assert_eq!(smart_cmp(a, b), Ordering::Less);
    assert_eq!(smart_cmp(b, a), Ordering::Greater);
    assert_eq!(smart_cmp(b, c), Ordering::Less);
    assert_eq!(smart_cmp(a, c), Ordering::Less);
    assert_eq!(smart_cmp(a, a), Ordering::Equal);
    // equivalent-but-different strings stay an equivalence
    assert_eq!(smart_cmp("x01", "x1"), Ordering::Equal);
    assert_eq!(smart_cmp("x1", "x001"), Ordering::Equal);
    assert_eq!(smart_cmp("x01", "x001"), Ordering::Equal);
}
