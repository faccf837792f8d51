//! The humane order is a total preorder: every string is equal to itself,
//! swapping the sides swaps the verdict, and the order is transitive.

use crate::digits::{digit_of, lemma_leading_zeros};
use crate::order::{humane_order, lex_order, opposite, stream_order, token_order};
use crate::token::{tokens, SortingType};
use core::cmp::Ordering;
use vstd::prelude::*;

verus! {

/// A text is equal to itself.
pub proof fn lemma_lex_reflexive(a: Seq<char>)
    ensures
        lex_order(a, a) == Ordering::Equal,
    decreases a.len(),
{
    if a.len() > 0 {
        lemma_lex_reflexive(a.drop_first());
    }
}

/// Swapping two texts swaps the verdict.
pub proof fn lemma_lex_antisymmetric(a: Seq<char>, b: Seq<char>)
    ensures
        lex_order(a, b) == opposite(lex_order(b, a)),
    decreases a.len(),
{
    if a.len() > 0 && b.len() > 0 {
        lemma_lex_antisymmetric(a.drop_first(), b.drop_first());
    }
}

/// The order of texts is transitive, and strict as soon as one step is.
pub proof fn lemma_lex_transitive(a: Seq<char>, b: Seq<char>, c: Seq<char>)
    requires
        lex_order(a, b) != Ordering::Greater,
        lex_order(b, c) != Ordering::Greater,
    ensures
        lex_order(a, c) != Ordering::Greater,
        lex_order(a, b) == Ordering::Less || lex_order(b, c) == Ordering::Less ==> lex_order(a, c)
            == Ordering::Less,
    decreases a.len(),
{
    if a.len() > 0 && b.len() > 0 && c.len() > 0 {
        if lex_order(a, b) == lex_order(a.drop_first(), b.drop_first()) && lex_order(b, c)
            == lex_order(b.drop_first(), c.drop_first()) {
            lemma_lex_transitive(a.drop_first(), b.drop_first(), c.drop_first());
        }
    }
}

/// A token is equal to itself.
pub proof fn lemma_token_order_reflexive(x: (Seq<char>, SortingType))
    ensures
        token_order(x, x) == Ordering::Equal,
{
    lemma_lex_reflexive(x.0);
}

/// Swapping two tokens swaps the verdict.
pub proof fn lemma_token_order_antisymmetric(
    x: (Seq<char>, SortingType),
    y: (Seq<char>, SortingType),
)
    ensures
        token_order(x, y) == opposite(token_order(y, x)),
{
    lemma_lex_antisymmetric(x.0, y.0);
}

/// The order of tokens is transitive, and strict as soon as one step is.
pub proof fn lemma_token_order_transitive(
    x: (Seq<char>, SortingType),
    y: (Seq<char>, SortingType),
    z: (Seq<char>, SortingType),
)
    requires
        token_order(x, y) != Ordering::Greater,
        token_order(y, z) != Ordering::Greater,
    ensures
        token_order(x, z) != Ordering::Greater,
        token_order(x, y) == Ordering::Less || token_order(y, z) == Ordering::Less ==> token_order(
            x,
            z,
        ) == Ordering::Less,
{
    if x.1 == SortingType::NonNumeric && y.1 == SortingType::NonNumeric && z.1
        == SortingType::NonNumeric {
        lemma_lex_transitive(x.0, y.0, z.0);
    }
}

/// Leading zeros do not count: a digit run with zeros put before it compares
/// equal to the run itself, and compares with any other token as the run
/// itself does.
pub proof fn lemma_leading_zeros_do_not_count(
    zeros: Seq<char>,
    t: Seq<char>,
    y: (Seq<char>, SortingType),
)
    requires
        forall|i: int| 0 <= i < zeros.len() ==> digit_of(#[trigger] zeros[i]) == 0,
    ensures
        token_order((zeros + t, SortingType::Numeric), (t, SortingType::Numeric))
            == Ordering::Equal,
        token_order((zeros + t, SortingType::Numeric), y) == token_order(
            (t, SortingType::Numeric),
            y,
        ),
        token_order(y, (zeros + t, SortingType::Numeric)) == token_order(
            y,
            (t, SortingType::Numeric),
        ),
{
    lemma_leading_zeros(zeros, t);
}

/// A token sequence is equal to itself.
pub proof fn lemma_stream_order_reflexive(a: Seq<(Seq<char>, SortingType)>)
    ensures
        stream_order(a, a) == Ordering::Equal,
    decreases a.len(),
{
    if a.len() > 0 {
        lemma_token_order_reflexive(a[0]);
        lemma_stream_order_reflexive(a.drop_first());
    }
}

/// Swapping two token sequences swaps the verdict.
pub proof fn lemma_stream_order_antisymmetric(
    a: Seq<(Seq<char>, SortingType)>,
    b: Seq<(Seq<char>, SortingType)>,
)
    ensures
        stream_order(a, b) == opposite(stream_order(b, a)),
    decreases a.len(),
{
    if a.len() > 0 && b.len() > 0 {
        lemma_token_order_antisymmetric(a[0], b[0]);
        lemma_stream_order_antisymmetric(a.drop_first(), b.drop_first());
    }
}

/// The order of token sequences is transitive, and strict as soon as one
/// step is.
pub proof fn lemma_stream_order_transitive(
    a: Seq<(Seq<char>, SortingType)>,
    b: Seq<(Seq<char>, SortingType)>,
    c: Seq<(Seq<char>, SortingType)>,
)
    requires
        stream_order(a, b) != Ordering::Greater,
        stream_order(b, c) != Ordering::Greater,
    ensures
        stream_order(a, c) != Ordering::Greater,
        stream_order(a, b) == Ordering::Less || stream_order(b, c) == Ordering::Less
            ==> stream_order(a, c) == Ordering::Less,
    decreases a.len(),
{
    if a.len() > 0 && b.len() > 0 && c.len() > 0 {
        lemma_token_order_transitive(a[0], b[0], c[0]);
        if token_order(a[0], b[0]) == Ordering::Equal && token_order(b[0], c[0])
            == Ordering::Equal {
            lemma_stream_order_transitive(a.drop_first(), b.drop_first(), c.drop_first());
        }
    }
}

/// Every string is equal to itself in the humane order.
pub proof fn lemma_humane_order_reflexive(a: Seq<char>)
    ensures
        humane_order(a, a) == Ordering::Equal,
{
    lemma_stream_order_reflexive(tokens(a));
}

/// Comparing `b` with `a` gives the opposite of comparing `a` with `b`.
pub proof fn lemma_humane_order_antisymmetric(a: Seq<char>, b: Seq<char>)
    ensures
        humane_order(a, b) == opposite(humane_order(b, a)),
{
    lemma_stream_order_antisymmetric(tokens(a), tokens(b));
}

/// If `a` is not after `b` and `b` is not after `c`, then `a` is not after
/// `c`; and `a` is before `c` as soon as one of the two steps is strict.
pub proof fn lemma_humane_order_transitive(a: Seq<char>, b: Seq<char>, c: Seq<char>)
    requires
        humane_order(a, b) != Ordering::Greater,
        humane_order(b, c) != Ordering::Greater,
    ensures
        humane_order(a, c) != Ordering::Greater,
        humane_order(a, b) == Ordering::Less || humane_order(b, c) == Ordering::Less
            ==> humane_order(a, c) == Ordering::Less,
{
    lemma_stream_order_transitive(tokens(a), tokens(b), tokens(c));
}

} // verus!
