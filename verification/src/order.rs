//! The order: two strings are compared token by token.

use crate::digits::{
    after, all_digits, code, code_point, common_prefix, digits_value, leading_zeros,
    lemma_first_difference, lemma_shorter_is_less, upto,
};
use crate::token::{lemma_numeric_run_is_digits, tokens, DigitRuns, SortingType, TokenIterator};
use core::cmp::Ordering;
use vstd::prelude::*;

verus! {

/// The order of two integers.
pub open spec fn int_order(x: int, y: int) -> Ordering {
    if x < y {
        Ordering::Less
    } else if x > y {
        Ordering::Greater
    } else {
        Ordering::Equal
    }
}

/// The verdict seen from the other side.
pub open spec fn opposite(o: Ordering) -> Ordering {
    match o {
        Ordering::Less => Ordering::Greater,
        Ordering::Equal => Ordering::Equal,
        Ordering::Greater => Ordering::Less,
    }
}

/// The order of two texts character by character, by code point; a text
/// that is the start of another comes first.
pub open spec fn lex_order(a: Seq<char>, b: Seq<char>) -> Ordering
    decreases a.len(),
{
    if a.len() == 0 && b.len() == 0 {
        Ordering::Equal
    } else if a.len() == 0 {
        Ordering::Less
    } else if b.len() == 0 {
        Ordering::Greater
    } else if code(a[0]) < code(b[0]) {
        Ordering::Less
    } else if code(a[0]) > code(b[0]) {
        Ordering::Greater
    } else {
        lex_order(a.drop_first(), b.drop_first())
    }
}

/// The order of two tokens: a digit run comes before any other run, two
/// digit runs go by their value, two other runs by their characters.
pub open spec fn token_order(x: (Seq<char>, SortingType), y: (Seq<char>, SortingType)) -> Ordering {
    match (x.1, y.1) {
        (SortingType::Numeric, SortingType::NonNumeric) => Ordering::Less,
        (SortingType::NonNumeric, SortingType::Numeric) => Ordering::Greater,
        (SortingType::Numeric, SortingType::Numeric) => int_order(
            digits_value(x.0),
            digits_value(y.0),
        ),
        (SortingType::NonNumeric, SortingType::NonNumeric) => lex_order(x.0, y.0),
    }
}

/// The order of two token sequences: the first pair of tokens that is not
/// equal decides; a sequence that runs out first comes first.
pub open spec fn stream_order(
    a: Seq<(Seq<char>, SortingType)>,
    b: Seq<(Seq<char>, SortingType)>,
) -> Ordering
    decreases a.len(),
{
    if a.len() == 0 && b.len() == 0 {
        Ordering::Equal
    } else if a.len() == 0 {
        Ordering::Less
    } else if b.len() == 0 {
        Ordering::Greater
    } else if token_order(a[0], b[0]) != Ordering::Equal {
        token_order(a[0], b[0])
    } else {
        stream_order(a.drop_first(), b.drop_first())
    }
}

/// The humane order of two strings.
pub open spec fn humane_order(a: Seq<char>, b: Seq<char>) -> Ordering {
    stream_order(tokens(a), tokens(b))
}

/// A common start does not change the order of two texts.
pub proof fn lemma_lex_prefix(p: Seq<char>, x: Seq<char>, y: Seq<char>)
    ensures
        lex_order(p + x, p + y) == lex_order(x, y),
    decreases p.len(),
{
    if p.len() == 0 {
        assert(p + x =~= x);
        assert(p + y =~= y);
    } else {
        assert((p + x).drop_first() =~= p.drop_first() + x);
        assert((p + y).drop_first() =~= p.drop_first() + y);
        lemma_lex_prefix(p.drop_first(), x, y);
    }
}

/// Compares two texts character by character.
pub fn compare_text(a: &str, b: &str) -> (r: Ordering)
    ensures
        r == lex_order(a@, b@),
{
    let na: usize = a.unicode_len();
    let nb: usize = b.unicode_len();
    let n: usize = if na < nb {
        na
    } else {
        nb
    };
    let d: usize = common_prefix(a, 0, b, 0, n);
    proof {
        assert(after(a@, 0) =~= a@);
        assert(after(b@, 0) =~= b@);
        assert(upto(a@, d) =~= upto(b@, d));
        assert(a@ =~= upto(a@, d) + after(a@, d));
        assert(b@ =~= upto(b@, d) + after(b@, d));
        lemma_lex_prefix(upto(a@, d), after(a@, d), after(b@, d));
    }
    if d == na {
        if d == nb {
            Ordering::Equal
        } else {
            Ordering::Less
        }
    } else if d == nb {
        Ordering::Greater
    } else {
        let ca: u32 = code_point(a.get_char(d));
        let cb: u32 = code_point(b.get_char(d));
        if ca < cb {
            Ordering::Less
        } else {
            Ordering::Greater
        }
    }
}

/// Compares two digit runs by the numbers they write, however long they are:
/// leading zeros aside, the longer run is the greater, and runs of one length
/// go by their first differing digit.
pub fn compare_digits(a: &str, b: &str) -> (r: Ordering)
    requires
        all_digits(a@),
        all_digits(b@),
    ensures
        r == int_order(digits_value(a@), digits_value(b@)),
{
    let na: usize = a.unicode_len();
    let nb: usize = b.unicode_len();
    let za: usize = leading_zeros(a);
    let zb: usize = leading_zeros(b);
    let la: usize = na - za;
    let lb: usize = nb - zb;
    if la < lb {
        proof {
            lemma_shorter_is_less(after(a@, za), after(b@, zb));
        }
        Ordering::Less
    } else if la > lb {
        proof {
            lemma_shorter_is_less(after(b@, zb), after(a@, za));
        }
        Ordering::Greater
    } else {
        let d: usize = common_prefix(a, za, b, zb, la);
        if d == la {
            proof {
                assert(after(a@, za) =~= after(b@, zb));
            }
            Ordering::Equal
        } else {
            let ca: u32 = code_point(a.get_char(za + d));
            let cb: u32 = code_point(b.get_char(zb + d));
            if ca < cb {
                proof {
                    lemma_first_difference(after(a@, za), after(b@, zb), d);
                }
                Ordering::Less
            } else {
                proof {
                    lemma_first_difference(after(b@, zb), after(a@, za), d);
                }
                Ordering::Greater
            }
        }
    }
}

/// Compares two tokens.
pub fn compare_tokens(ours: (&str, SortingType), theirs: (&str, SortingType)) -> (r: Ordering)
    requires
        ours.1 == SortingType::Numeric ==> all_digits(ours.0@),
        theirs.1 == SortingType::Numeric ==> all_digits(theirs.0@),
    ensures
        r == token_order((ours.0@, ours.1), (theirs.0@, theirs.1)),
{
    match (ours.1, theirs.1) {
        (SortingType::Numeric, SortingType::NonNumeric) => Ordering::Less,
        (SortingType::NonNumeric, SortingType::Numeric) => Ordering::Greater,
        (SortingType::Numeric, SortingType::Numeric) => compare_digits(ours.0, theirs.0),
        (SortingType::NonNumeric, SortingType::NonNumeric) => compare_text(ours.0, theirs.0),
    }
}

/// Compares what two token walks still hold, pulling a token from each in
/// turn until a pair differs or a walk runs out.
pub fn compare_streams<'a, 'b>(
    a: &mut TokenIterator<'a, DigitRuns>,
    b: &mut TokenIterator<'b, DigitRuns>,
) -> (r: Ordering)
    requires
        old(a).wf(),
        old(b).wf(),
    ensures
        final(a).wf(),
        final(b).wf(),
        final(a).source() == old(a).source(),
        final(b).source() == old(b).source(),
        r == stream_order(old(a).remaining(), old(b).remaining()),
{
    let ghost goal = stream_order(a.remaining(), b.remaining());
    let ghost source_a = a.source();
    let ghost source_b = b.source();
    loop
        invariant
            a.wf(),
            b.wf(),
            a.source() == source_a,
            b.source() == source_b,
            source_a == old(a).source(),
            source_b == old(b).source(),
            goal == stream_order(old(a).remaining(), old(b).remaining()),
            goal == stream_order(a.remaining(), b.remaining()),
        decreases a.remaining().len(),
    {
        let x = a.next();
        let y = b.next();
        match (x, y) {
            (None, None) => {
                return Ordering::Equal;
            },
            (None, _) => {
                return Ordering::Less;
            },
            (_, None) => {
                return Ordering::Greater;
            },
            (Some(ours), Some(theirs)) => {
                proof {
                    if ours.1 == SortingType::Numeric {
                        lemma_numeric_run_is_digits(ours.0@);
                    }
                    if theirs.1 == SortingType::Numeric {
                        lemma_numeric_run_is_digits(theirs.0@);
                    }
                }
                let c = compare_tokens(ours, theirs);
                match c {
                    Ordering::Equal => {},
                    _ => {
                        return c;
                    },
                }
            },
        }
    }
}

/// Compares two strings in the humane order.
pub fn humane_compare(a: &str, b: &str) -> (r: Ordering)
    ensures
        r == humane_order(a@, b@),
        a@.len() == 0 && b@.len() == 0 ==> r == Ordering::Equal,
        a@.len() == 0 && b@.len() > 0 ==> r == Ordering::Less,
        a@.len() > 0 && b@.len() == 0 ==> r == Ordering::Greater,
{
    let mut ours = TokenIterator::new(a, DigitRuns);
    let mut theirs = TokenIterator::new(b, DigitRuns);
    compare_streams(&mut ours, &mut theirs)
}

/// Types that can be ordered in a human friendly way.
pub trait HumaneOrder {
    /// The characters by which a value is ordered.
    spec fn text(&self) -> Seq<char>;

    /// Compares `self` with `other` in the humane order. An empty text comes
    /// before every other text.
    fn humane_cmp(&self, other: &Self) -> (r: Ordering)
        ensures
            r == humane_order(self.text(), other.text()),
            self.text().len() == 0 && other.text().len() == 0 ==> r == Ordering::Equal,
            self.text().len() == 0 && other.text().len() > 0 ==> r == Ordering::Less,
            self.text().len() > 0 && other.text().len() == 0 ==> r == Ordering::Greater,
    ;
}

impl<'a> HumaneOrder for &'a str {
    open spec fn text(&self) -> Seq<char> {
        (*self)@
    }

    fn humane_cmp(&self, other: &Self) -> (r: Ordering) {
        humane_compare(*self, *other)
    }
}

impl HumaneOrder for String {
    open spec fn text(&self) -> Seq<char> {
        self@
    }

    fn humane_cmp(&self, other: &Self) -> (r: Ordering) {
        humane_compare(self.as_str(), other.as_str())
    }
}

} // verus!
