use humanesort::order::{compare_digits, compare_text, compare_tokens};
use humanesort::{sorting_type, ByFn, Classifier, DigitRuns, SortingType, TokenIterator};
use std::cmp::Ordering;

fn unicode_numbers(x: &str) -> SortingType {
    if x.chars().all(|c| char::is_numeric(c)) {
        SortingType::Numeric
    } else {
        SortingType::NonNumeric
    }
}

fn vowels(x: &str) -> SortingType {
    if x == "a" || x == "e" || x == "i" || x == "o" || x == "u" {
        SortingType::Numeric
    } else {
        SortingType::NonNumeric
    }
}

fn all_tokens(s: &str) -> Vec<(&str, SortingType)> {
    let mut it = TokenIterator::new(s, DigitRuns);
    let mut out = Vec::new();
    while let Some(t) = it.next() {
        out.push(t);
    }
    out
}

#[test]
fn sorting_test() {
    let s = "11LOL";
    let fun = &|x: &str| -> SortingType {
        if x.chars().all(|c| char::is_numeric(c)) {
            return SortingType::Numeric;
        } else {
            return SortingType::NonNumeric;
        }
    };
    let mut it = TokenIterator::new(s, ByFn::new(fun));
    assert_eq!(it.next().unwrap().0, "11");
    assert_eq!(it.next().unwrap().0, "LOL");
}

#[test]
fn digits_then_letters_are_two_tokens() {
    let toks = all_tokens("11LOL");
    assert_eq!(toks, vec![("11", SortingType::Numeric), ("LOL", SortingType::NonNumeric)]);
}

#[test]
fn empty_string_has_no_token() {
    let mut it = TokenIterator::new("", DigitRuns);
    assert!(it.next().is_none());
    assert!(it.next().is_none());
}

#[test]
fn exhausted_walk_stays_exhausted() {
    let mut it = TokenIterator::new("a", DigitRuns);
    assert_eq!(it.next(), Some(("a", SortingType::NonNumeric)));
    assert_eq!(it.next(), None);
    assert_eq!(it.next(), None);
}

#[test]
fn single_character_is_one_token() {
    assert_eq!(all_tokens("7"), vec![("7", SortingType::Numeric)]);
    assert_eq!(all_tokens("x"), vec![("x", SortingType::NonNumeric)]);
}

#[test]
fn one_kind_is_one_token() {
    assert_eq!(all_tokens("0123456789"), vec![("0123456789", SortingType::Numeric)]);
    assert_eq!(all_tokens("hello world"), vec![("hello world", SortingType::NonNumeric)]);
}

#[test]
fn kinds_alternate() {
    let toks = all_tokens("ab12cd345-6");
    assert_eq!(
        toks,
        vec![
            ("ab", SortingType::NonNumeric),
            ("12", SortingType::Numeric),
            ("cd", SortingType::NonNumeric),
            ("345", SortingType::Numeric),
            ("-", SortingType::NonNumeric),
            ("6", SortingType::Numeric),
        ]
    );
    for w in toks.windows(2) {
        assert_ne!(w[0].1, w[1].1);
    }
}

#[test]
fn tokens_rebuild_the_string() {
    for s in ["", "a", "1", "abc123", "12-ab-34", "na\u{ef}ve 10 caf\u{e9}s", "e\u{301}12\u{1F1F7}\u{1F1FA}3", "\r\n1\r\n"] {
        let joined: String = all_tokens(s).iter().map(|t| t.0).collect();
        assert_eq!(joined, s);
    }
}

#[test]
fn a_digit_with_a_combining_mark_is_not_numeric() {
    let toks = all_tokens("1\u{301}2");
    assert_eq!(
        toks,
        vec![("1\u{301}", SortingType::NonNumeric), ("2", SortingType::Numeric)]
    );
}

#[test]
fn multi_byte_characters_stay_whole() {
    let toks = all_tokens("\u{e9}t\u{e9}42\u{4e16}\u{754c}");
    assert_eq!(
        toks,
        vec![
            ("\u{e9}t\u{e9}", SortingType::NonNumeric),
            ("42", SortingType::Numeric),
            ("\u{4e16}\u{754c}", SortingType::NonNumeric),
        ]
    );
}

#[test]
fn non_ascii_digits_are_not_numeric() {
    let toks = all_tokens("\u{663}\u{664}12");
    assert_eq!(
        toks,
        vec![("\u{663}\u{664}", SortingType::NonNumeric), ("12", SortingType::Numeric)]
    );
}

#[test]
fn from_clusters_walks_the_given_units() {
    let s = "ab12c";
    let mut it = TokenIterator::from_clusters(s, vec!["a", "b", "1", "2", "c"], DigitRuns);
    assert_eq!(it.next(), Some(("ab", SortingType::NonNumeric)));
    assert_eq!(it.next(), Some(("12", SortingType::Numeric)));
    assert_eq!(it.next(), Some(("c", SortingType::NonNumeric)));
    assert_eq!(it.next(), None);
}

#[test]
fn the_rule_is_the_callers_choice() {
    let mut it = TokenIterator::new("aeixyou1", ByFn::new(vowels));
    assert_eq!(it.next(), Some(("aei", SortingType::Numeric)));
    assert_eq!(it.next(), Some(("xy", SortingType::NonNumeric)));
    assert_eq!(it.next(), Some(("ou", SortingType::Numeric)));
    assert_eq!(it.next(), Some(("1", SortingType::NonNumeric)));
    assert_eq!(it.next(), None);
    let mut un = TokenIterator::new("\u{663}\u{664}12a", ByFn::new(unicode_numbers));
    assert_eq!(un.next(), Some(("\u{663}\u{664}12", SortingType::Numeric)));
    assert_eq!(un.next(), Some(("a", SortingType::NonNumeric)));
    assert_eq!(un.next(), None);
}

#[test]
fn a_function_can_be_the_rule() {
    let rule = ByFn::new(sorting_type);
    for s in ["", "a1", "12ab", "x-007"] {
        let mut by_fn = TokenIterator::new(s, ByFn::new(sorting_type));
        let mut usual = TokenIterator::new(s, DigitRuns);
        loop {
            let a = by_fn.next();
            let b = usual.next();
            assert_eq!(a, b);
            if a.is_none() {
                break;
            }
        }
    }
    assert_eq!(rule.classify("4"), SortingType::Numeric);
    assert_eq!(rule.classify("d"), SortingType::NonNumeric);
}

#[test]
fn the_usual_rule_is_sorting_type() {
    for u in ["0", "5", "9", "a", "", "-", "\u{663}", "1\u{301}"] {
        assert_eq!(DigitRuns.classify(u), sorting_type(u));
    }
}

#[test]
fn sorting_type_of_units() {
    assert_eq!(sorting_type("0"), SortingType::Numeric);
    assert_eq!(sorting_type("9"), SortingType::Numeric);
    assert_eq!(sorting_type("a"), SortingType::NonNumeric);
    assert_eq!(sorting_type("-"), SortingType::NonNumeric);
    assert_eq!(sorting_type("/"), SortingType::NonNumeric);
    assert_eq!(sorting_type(":"), SortingType::NonNumeric);
    assert_eq!(sorting_type(""), SortingType::NonNumeric);
    assert_eq!(sorting_type("\u{663}"), SortingType::NonNumeric);
    assert_eq!(sorting_type("1\u{301}"), SortingType::NonNumeric);
}

#[test]
fn digits_compare_by_value() {
    assert_eq!(compare_digits("2", "11"), Ordering::Less);
    assert_eq!(compare_digits("11", "2"), Ordering::Greater);
    assert_eq!(compare_digits("12", "13"), Ordering::Less);
    assert_eq!(compare_digits("130", "129"), Ordering::Greater);
    assert_eq!(compare_digits("42", "42"), Ordering::Equal);
    assert_eq!(compare_digits("007", "7"), Ordering::Equal);
    assert_eq!(compare_digits("0", "000"), Ordering::Equal);
    assert_eq!(compare_digits("", "0"), Ordering::Equal);
    assert_eq!(compare_digits("0010", "9"), Ordering::Greater);
    assert_eq!(compare_digits("09", "10"), Ordering::Less);
}

#[test]
fn digits_longer_than_any_machine_integer() {
    let a = "123456789012345678901234567890123456789012345678901234567890";
    let b = "123456789012345678901234567890123456789012345678901234567891";
    let c = "99999999999999999999999999999999999999999999999999999999999";
    assert_eq!(compare_digits(a, b), Ordering::Less);
    assert_eq!(compare_digits(b, a), Ordering::Greater);
    assert_eq!(compare_digits(a, a), Ordering::Equal);
    assert_eq!(compare_digits(c, a), Ordering::Less);
    assert_eq!(compare_digits("18446744073709551616", "18446744073709551615"), Ordering::Greater);
}

#[test]
fn text_compares_by_code_point() {
    assert_eq!(compare_text("lal", "lol"), Ordering::Less);
    assert_eq!(compare_text("b", "a"), Ordering::Greater);
    assert_eq!(compare_text("abc", "abc"), Ordering::Equal);
    assert_eq!(compare_text("ab", "abc"), Ordering::Less);
    assert_eq!(compare_text("abc", "ab"), Ordering::Greater);
    assert_eq!(compare_text("", ""), Ordering::Equal);
    assert_eq!(compare_text("Z", "a"), Ordering::Less);
    assert_eq!(compare_text("z", "\u{e9}"), Ordering::Less);
    assert_eq!(compare_text("\u{ffff}", "\u{10000}"), Ordering::Less);
    for (a, b) in [("a", "b"), ("\u{e9}", "z"), ("ab", "a"), ("\u{10000}", "\u{ffff}")] {
        assert_eq!(compare_text(a, b), a.cmp(b));
    }
}

#[test]
fn tokens_compare_kind_first() {
    let num = ("5", SortingType::Numeric);
    let big = ("50", SortingType::Numeric);
    let txt = ("a", SortingType::NonNumeric);
    let txu = ("b", SortingType::NonNumeric);
    assert_eq!(compare_tokens(num, txt), Ordering::Less);
    assert_eq!(compare_tokens(txt, num), Ordering::Greater);
    assert_eq!(compare_tokens(num, big), Ordering::Less);
    assert_eq!(compare_tokens(big, num), Ordering::Greater);
    assert_eq!(compare_tokens(txt, txu), Ordering::Less);
    assert_eq!(compare_tokens(txu, txu), Ordering::Equal);
}
