use search::traits::p_tuple::PTuple;
use std::cmp::Ordering;

#[test]
fn smaller_priority_compares_greater() {
    let low = PTuple { priority: 1, node: "a" };
    let high = PTuple { priority: 7, node: "b" };
    assert_eq!(low.partial_cmp(&high), Some(Ordering::Greater));
    assert_eq!(high.partial_cmp(&low), Some(Ordering::Less));
    assert!(low > high);
}

#[test]
fn equality_ignores_payload() {
    let a = PTuple { priority: 3, node: "a" };
    let b = PTuple { priority: 3, node: "b" };
    assert!(a == b);
    assert_eq!(a.partial_cmp(&b), Some(Ordering::Equal));
    assert!(PTuple { priority: 3, node: 0 } != PTuple { priority: 4, node: 0 });
}
