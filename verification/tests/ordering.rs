use humanesort::order::{compare_streams, humane_compare};
use humanesort::{DigitRuns, HumaneOrder, HumaneSortable, TokenIterator};
use std::cmp::Ordering;

fn rev(o: Ordering) -> Ordering {
    match o {
        Ordering::Less => Ordering::Greater,
        Ordering::Equal => Ordering::Equal,
        Ordering::Greater => Ordering::Less,
    }
}

fn samples() -> Vec<&'static str> {
    vec![
        "", "0", "00", "1", "01", "2", "10", "11", "a", "a1", "a01", "a2", "a10", "a1b", "a1b2",
        "b", "-", "1-", "1a", "something-1", "something-11", "something-2", "lal-2", "lol-1",
        "\u{e9}1", "e\u{301}1", "1\u{301}2", "99999999999999999999999", "100000000000000000000000",
    ]
}

#[test]
fn sort_slice() {
    let mut strings = vec!["11", "2", "a", "1"];
    strings.humane_sort();
    assert_eq!(vec!["1", "2", "11", "a"], strings);
    let mut sort_me = vec!["something-11", "something-1", "something-2"];
    sort_me.humane_sort();
    assert_eq!(vec!["something-1", "something-2", "something-11"], sort_me);
}

#[test]
fn first_differing_text_run_decides() {
    let mut a = ["lol-1", "lal-2"];
    a.humane_sort();
    assert_eq!(a, ["lal-2", "lol-1"]);
}

#[test]
fn leading_numbers_order_by_value() {
    let mut a = ["13-zzzz", "1-ffff", "12-aaaa"];
    a.humane_sort();
    assert_eq!(a, ["1-ffff", "12-aaaa", "13-zzzz"]);
}

#[test]
fn sorts_owned_strings() {
    let mut a = vec![String::from("x10"), String::from("x9"), String::from("x100")];
    a.humane_sort();
    assert_eq!(a, vec![String::from("x9"), String::from("x10"), String::from("x100")]);
}

#[test]
fn sort_is_stable() {
    let mut a = ["b", "007", "7", "a", "07", "0007"];
    a.humane_sort();
    assert_eq!(a, ["007", "7", "07", "0007", "a", "b"]);
    let mut b = ["x01y", "x1y", "x001y", "w"];
    b.humane_sort();
    assert_eq!(b, ["w", "x01y", "x1y", "x001y"]);
}

#[test]
fn sort_of_nothing_and_of_one() {
    let mut none: Vec<&str> = vec![];
    none.humane_sort();
    assert!(none.is_empty());
    let mut one = ["only"];
    one.humane_sort();
    assert_eq!(one, ["only"]);
}

#[test]
fn sorted_output_is_ascending() {
    let mut v = samples();
    v.reverse();
    v.humane_sort();
    for i in 0..v.len() {
        for j in i..v.len() {
            assert_ne!(v[i].humane_cmp(&v[j]), Ordering::Greater);
        }
    }
    let mut again = samples();
    again.sort();
    let mut back = v.clone();
    back.sort();
    assert_eq!(again, back);
}

#[test]
fn every_string_equals_itself() {
    for s in samples() {
        assert_eq!(s.humane_cmp(&s), Ordering::Equal);
    }
}

#[test]
fn swapping_sides_swaps_the_verdict() {
    for a in samples() {
        for b in samples() {
            assert_eq!(a.humane_cmp(&b), rev(b.humane_cmp(&a)));
        }
    }
}

#[test]
fn order_is_transitive() {
    for a in samples() {
        for b in samples() {
            for c in samples() {
                let ab = a.humane_cmp(&b);
                let bc = b.humane_cmp(&c);
                if ab != Ordering::Greater && bc != Ordering::Greater {
                    let ac = a.humane_cmp(&c);
                    assert_ne!(ac, Ordering::Greater);
                    if ab == Ordering::Less || bc == Ordering::Less {
                        assert_eq!(ac, Ordering::Less);
                    }
                }
            }
        }
    }
}

#[test]
fn leading_zeros_do_not_count() {
    assert_eq!("007".humane_cmp(&"7"), Ordering::Equal);
    assert_eq!("7".humane_cmp(&"007"), Ordering::Equal);
    assert_eq!("a007b".humane_cmp(&"a7b"), Ordering::Equal);
    assert_eq!("a007b".humane_cmp(&"a8b"), Ordering::Less);
    assert_eq!("a010".humane_cmp(&"a9"), Ordering::Greater);
}

#[test]
fn empty_string_comes_first() {
    assert_eq!("".humane_cmp(&""), Ordering::Equal);
    for s in samples() {
        if !s.is_empty() {
            assert_eq!("".humane_cmp(&s), Ordering::Less);
            assert_eq!(s.humane_cmp(&""), Ordering::Greater);
        }
    }
}

#[test]
fn numbers_come_before_text() {
    assert_eq!("1".humane_cmp(&"a"), Ordering::Less);
    assert_eq!("a".humane_cmp(&"1"), Ordering::Greater);
    assert_eq!("999".humane_cmp(&"-"), Ordering::Less);
    assert_eq!("x1".humane_cmp(&"xa"), Ordering::Less);
    assert_eq!("-1".humane_cmp(&"-a"), Ordering::Less);
    assert_eq!("x-1".humane_cmp(&"x-a"), Ordering::Less);
}

#[test]
fn shorter_token_sequence_comes_first() {
    assert_eq!("a".humane_cmp(&"a1"), Ordering::Less);
    assert_eq!("a1".humane_cmp(&"a"), Ordering::Greater);
    assert_eq!("a1".humane_cmp(&"a1b"), Ordering::Less);
    assert_eq!("1".humane_cmp(&"1a"), Ordering::Less);
}

#[test]
fn numbers_inside_text_order_by_value() {
    assert_eq!("item-2".humane_cmp(&"item-11"), Ordering::Less);
    assert_eq!("item-11".humane_cmp(&"item-2"), Ordering::Greater);
    assert_eq!("v1.10.0".humane_cmp(&"v1.9.3"), Ordering::Greater);
    assert_eq!("a1b2".humane_cmp(&"a1b10"), Ordering::Less);
}

#[test]
fn huge_digit_runs_compare_without_overflow() {
    let a = "file-99999999999999999999999999999999999999";
    let b = "file-100000000000000000000000000000000000000";
    assert_eq!(a.humane_cmp(&b), Ordering::Less);
    assert_eq!(b.humane_cmp(&a), Ordering::Greater);
    assert_eq!(b.humane_cmp(&b), Ordering::Equal);
    let c = "file-0100000000000000000000000000000000000000";
    assert_eq!(b.humane_cmp(&c), Ordering::Equal);
}

#[test]
fn clusters_are_the_unit_of_comparison() {
    assert_eq!("1\u{301}".humane_cmp(&"1"), Ordering::Greater);
    assert_eq!("1\u{301}2".humane_cmp(&"12"), Ordering::Greater);
    assert_eq!("e\u{301}2".humane_cmp(&"e\u{301}10"), Ordering::Less);
}

#[test]
fn owned_strings_compare_like_slices() {
    for a in samples() {
        for b in samples() {
            let x = String::from(a);
            let y = String::from(b);
            assert_eq!(x.humane_cmp(&y), a.humane_cmp(&b));
            assert_eq!(humane_compare(a, b), a.humane_cmp(&b));
        }
    }
}

#[test]
fn streams_compare_what_is_left() {
    let mut a = TokenIterator::new("x2", DigitRuns);
    let mut b = TokenIterator::new("y10", DigitRuns);
    assert_eq!(a.next().unwrap().0, "x");
    assert_eq!(b.next().unwrap().0, "y");
    assert_eq!(compare_streams(&mut a, &mut b), Ordering::Less);
    let mut c = TokenIterator::from_clusters("a1", vec!["a", "1"], DigitRuns);
    let mut d = TokenIterator::from_clusters("a01b", vec!["a", "0", "1", "b"], DigitRuns);
    assert_eq!(compare_streams(&mut c, &mut d), Ordering::Less);
}
