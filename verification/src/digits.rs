//! Decimal digits and the value of a digit run.

use vstd::prelude::*;

verus! {

/// The code point of `c`.
pub open spec fn code(c: char) -> int {
    c as int
}

/// `c` is one of the ASCII digits `0` to `9`.
pub open spec fn is_digit(c: char) -> bool {
    48 <= code(c) <= 57
}

/// Every character of `t` is an ASCII digit.
pub open spec fn all_digits(t: Seq<char>) -> bool {
    forall|i: int| 0 <= i < t.len() ==> is_digit(#[trigger] t[i])
}

/// The digit that `c` stands for.
pub open spec fn digit_of(c: char) -> int {
    code(c) - 48
}

/// The number that the decimal digits `t` write, of any length.
pub open spec fn digits_value(t: Seq<char>) -> int
    decreases t.len(),
{
    if t.len() == 0 {
        0
    } else {
        digits_value(t.drop_last()) * 10 + digit_of(t.last())
    }
}

/// The code point of `c`, as a machine integer.
pub fn code_point(c: char) -> (r: u32)
    ensures
        r as int == code(c),
{
    c as u32
}

/// Tells whether `c` is an ASCII digit.
pub fn is_ascii_digit(c: char) -> (r: bool)
    ensures
        r == is_digit(c),
{
    let p: u32 = code_point(c);
    48 <= p && p <= 57
}

/// Two characters with the same code point are the same character.
pub proof fn lemma_code_injective(a: char, b: char)
    requires
        code(a) == code(b),
    ensures
        a == b,
{
}

/// What is left of `t` after its first `i` characters.
pub open spec fn after(t: Seq<char>, i: usize) -> Seq<char> {
    t.skip(i as int)
}

/// The first `i` characters of `t`.
pub open spec fn upto(t: Seq<char>, i: usize) -> Seq<char> {
    t.take(i as int)
}

/// How many characters `a` from `from_a` on and `b` from `from_b` on have in
/// common at their start, looking at no more than `n` of them.
pub(crate) fn common_prefix(a: &str, from_a: usize, b: &str, from_b: usize, n: usize) -> (d: usize)
    requires
        from_a + n <= a@.len(),
        from_b + n <= b@.len(),
    ensures
        d <= n,
        forall|j: int| 0 <= j < d ==> (#[trigger] after(a@, from_a)[j]) == after(b@, from_b)[j],
        d < n ==> after(a@, from_a)[d as int] != after(b@, from_b)[d as int],
{
    let la: usize = a.unicode_len();
    let lb: usize = b.unicode_len();
    let mut d: usize = 0;
    while d < n
        invariant
            d <= n,
            la == a@.len(),
            lb == b@.len(),
            from_a + n <= la,
            from_b + n <= lb,
            forall|j: int| 0 <= j < d ==> (#[trigger] after(a@, from_a)[j]) == after(b@, from_b)[j],
        decreases n - d,
    {
        let ca: char = a.get_char(from_a + d);
        let cb: char = b.get_char(from_b + d);
        if code_point(ca) != code_point(cb) {
            return d;
        }
        proof {
            lemma_code_injective(ca, cb);
        }
        d = d + 1;
    }
    d
}

/// The number of `0` characters at the start of the digit run `a`.
pub(crate) fn leading_zeros(a: &str) -> (z: usize)
    requires
        all_digits(a@),
    ensures
        z <= a@.len(),
        forall|j: int| 0 <= j < z ==> digit_of(#[trigger] a@[j]) == 0,
        z < a@.len() ==> digit_of(a@[z as int]) > 0,
        digits_value(after(a@, z)) == digits_value(a@),
        all_digits(after(a@, z)),
{
    let n: usize = a.unicode_len();
    let mut z: usize = 0;
    let mut going: bool = z < n;
    assert(a@.skip(0) =~= a@);
    while going
        invariant
            n == a@.len(),
            z <= n,
            all_digits(a@),
            forall|j: int| 0 <= j < z ==> digit_of(#[trigger] a@[j]) == 0,
            digits_value(after(a@, z)) == digits_value(a@),
            going ==> z < n,
            !going && z < n ==> digit_of(a@[z as int]) > 0,
        decreases n - z + (if going { 1int } else { 0int }),
    {
        if code_point(a.get_char(z)) == 48 {
            proof {
                lemma_leading_zero(after(a@, z));
                assert(after(a@, z).drop_first() =~= a@.skip(z + 1));
            }
            z = z + 1;
            going = z < n;
        } else {
            going = false;
        }
    }
    z
}

/// A leading zero does not change what a digit run is worth.
pub proof fn lemma_leading_zero(t: Seq<char>)
    requires
        t.len() > 0,
        digit_of(t[0]) == 0,
    ensures
        digits_value(t.drop_first()) == digits_value(t),
    decreases t.len(),
{
    if t.len() == 1 {
        assert(t.drop_last().len() == 0);
        assert(digits_value(t.drop_last()) == 0);
    } else {
        lemma_leading_zero(t.drop_last());
        assert(t.drop_first().drop_last() =~= t.drop_last().drop_first());
    }
}

/// Any number of leading zeros does not change what a digit run is worth.
pub proof fn lemma_leading_zeros(zeros: Seq<char>, t: Seq<char>)
    requires
        forall|i: int| 0 <= i < zeros.len() ==> digit_of(#[trigger] zeros[i]) == 0,
    ensures
        digits_value(zeros + t) == digits_value(t),
    decreases zeros.len(),
{
    if zeros.len() == 0 {
        assert(zeros + t =~= t);
    } else {
        lemma_leading_zero(zeros + t);
        assert((zeros + t).drop_first() =~= zeros.drop_first() + t);
        lemma_leading_zeros(zeros.drop_first(), t);
    }
}

/// A digit run that starts with a digit other than zero is worth at least one.
pub proof fn lemma_value_positive(t: Seq<char>)
    requires
        all_digits(t),
        t.len() > 0,
        digit_of(t[0]) > 0,
    ensures
        digits_value(t) >= 1,
    decreases t.len(),
{
    if t.len() == 1 {
        assert(digits_value(t.drop_last()) == 0);
    } else {
        lemma_value_positive(t.drop_last());
    }
}

/// Of two digit runs, the shorter is worth less when the longer does not
/// start with a zero.
pub proof fn lemma_shorter_is_less(a: Seq<char>, b: Seq<char>)
    requires
        all_digits(a),
        all_digits(b),
        a.len() < b.len(),
        digit_of(b[0]) > 0,
    ensures
        digits_value(a) < digits_value(b),
    decreases a.len(),
{
    if a.len() == 0 {
        lemma_value_positive(b);
    } else {
        lemma_shorter_is_less(a.drop_last(), b.drop_last());
    }
}

/// Of two digit runs of one length, the one with the smaller digit at the
/// first place where they differ is worth less.
pub proof fn lemma_first_difference(a: Seq<char>, b: Seq<char>, d: usize)
    requires
        all_digits(a),
        all_digits(b),
        a.len() == b.len(),
        d < a.len(),
        forall|j: int| 0 <= j < d ==> a[j] == b[j],
        code(a[d as int]) < code(b[d as int]),
    ensures
        digits_value(a) < digits_value(b),
    decreases a.len(),
{
    if d + 1 == a.len() {
        assert(a.drop_last() =~= b.drop_last());
    } else {
        lemma_first_difference(a.drop_last(), b.drop_last(), d);
    }
}

} // verus!
