use humanesort::prelude::{HumaneOrder, HumaneSortable};
use std::cmp::Ordering;

#[test]
fn prelude_brings_both_traits() {
    let mut v = vec!["b2", "b10", "a"];
    v.humane_sort();
    assert_eq!(v, vec!["a", "b2", "b10"]);
    assert_eq!("b2".humane_cmp(&"b10"), Ordering::Less);
}
