//! Splitting text into runs of one kind.

use crate::digits::{all_digits, is_ascii_digit, is_digit};
use crate::segment::{grapheme_clusters, segments, split_graphemes, texts};
use vstd::prelude::*;

verus! {

/// What a run of text is made of.
#[derive(PartialEq, Eq, Structural, Debug, Clone, Copy)]
pub enum SortingType {
    /// A run of ASCII decimal digits.
    Numeric,
    /// A run of anything else.
    NonNumeric,
}

/// The kind of one user-perceived character: numeric when it is non-empty
/// and made of ASCII digits only.
pub open spec fn unit_kind(unit: Seq<char>) -> SortingType {
    if unit.len() > 0 && all_digits(unit) {
        SortingType::Numeric
    } else {
        SortingType::NonNumeric
    }
}

/// Classifies one user-perceived character.
pub fn sorting_type(x: &str) -> (k: SortingType)
    ensures
        k == unit_kind(x@),
{
    let n: usize = x.unicode_len();
    if n == 0 {
        return SortingType::NonNumeric;
    }
    let mut i: usize = 0;
    while i < n
        invariant
            n == x@.len(),
            i <= n,
            forall|j: int| 0 <= j < i ==> is_digit(#[trigger] x@[j]),
        decreases n - i,
    {
        if !is_ascii_digit(x.get_char(i)) {
            return SortingType::NonNumeric;
        }
        i = i + 1;
    }
    SortingType::Numeric
}

/// A rule that gives each user-perceived character its kind.
pub trait Classifier {
    /// The rule can be asked about any text and answers by the text alone.
    spec fn sound(&self) -> bool;

    /// The kind that the rule gives to `unit`.
    spec fn kind_of(&self, unit: Seq<char>) -> SortingType;

    /// Classifies one user-perceived character.
    fn classify(&self, unit: &str) -> (k: SortingType)
        requires
            self.sound(),
        ensures
            k == self.kind_of(unit@),
    ;
}

/// The usual rule: a character is numeric when it is an ASCII digit.
#[derive(Clone, Copy, Debug)]
pub struct DigitRuns;

impl Classifier for DigitRuns {
    open spec fn sound(&self) -> bool {
        true
    }

    open spec fn kind_of(&self, unit: Seq<char>) -> SortingType {
        unit_kind(unit)
    }

    fn classify(&self, unit: &str) -> (k: SortingType) {
        sorting_type(unit)
    }
}

/// The function `f` can answer `k` when asked about the text `unit`.
pub open spec fn answers<F: Fn(&str) -> SortingType>(f: F, unit: Seq<char>, k: SortingType) -> bool {
    exists|u: &str| u@ == unit && call_ensures(f, (u,), k)
}

/// `f` can be called on any text, and what it answers depends on the
/// characters of the text alone.
pub open spec fn is_function<F: Fn(&str) -> SortingType>(f: F) -> bool {
    &&& forall|u: &str| call_requires(f, (u,))
    &&& forall|u: &str, v: &str, j: SortingType, k: SortingType|
        u@ == v@ && call_ensures(f, (u,), j) && call_ensures(f, (v,), k) ==> j == k
}

/// A rule given as a function from a user-perceived character to its kind.
///
/// The rule gives a text the kind that the function answers for it. A
/// caller that has to know the kinds beforehand writes a rule with a
/// `kind_of` of its own instead, as `DigitRuns` does.
pub struct ByFn<F> {
    function: F,
}

impl<F: Fn(&str) -> SortingType> ByFn<F> {
    /// The function that the rule asks.
    pub closed spec fn function(&self) -> F {
        self.function
    }

    /// Makes a rule of the function `f`.
    pub fn new(f: F) -> (r: Self)
        requires
            is_function(f),
        ensures
            r.function() == f,
            r.sound(),
            forall|u: &str, k: SortingType| #[trigger]
                call_ensures(f, (u,), k) ==> r.kind_of(u@) == k,
    {
        let r = ByFn { function: f };
        proof {
            assert forall|u: &str, k: SortingType| #[trigger]
                call_ensures(f, (u,), k) implies r.kind_of(u@) == k by {
                let chosen = r.kind_of(u@);
                assert(answers(f, u@, k));
                assert(answers(f, u@, chosen));
                let v = choose|v: &str| v@ == u@ && call_ensures(f, (v,), chosen);
                assert(call_ensures(f, (v,), chosen));
            }
        }
        r
    }
}

impl<F: Fn(&str) -> SortingType> Classifier for ByFn<F> {
    closed spec fn sound(&self) -> bool {
        is_function(self.function)
    }

    closed spec fn kind_of(&self, unit: Seq<char>) -> SortingType {
        choose|k: SortingType| answers(self.function, unit, k)
    }

    fn classify(&self, unit: &str) -> (k: SortingType) {
        let k = (self.function)(unit);
        proof {
            let chosen = self.kind_of(unit@);
            assert(answers(self.function, unit@, k));
            assert(answers(self.function, unit@, chosen));
            let v = choose|u: &str| u@ == unit@ && call_ensures(self.function, (u,), chosen);
            assert(call_ensures(self.function, (v,), chosen));
        }
        k
    }
}

/// One past the last unit of the run that starts at `from`: the run goes on
/// as long as the next unit has the kind of the one before it.
pub open spec fn run_end<C: Classifier>(c: C, units: Seq<Seq<char>>, from: int) -> int
    decreases units.len() - from,
{
    if 0 <= from && from + 1 < units.len() && c.kind_of(units[from + 1]) == c.kind_of(
        units[from],
    ) {
        run_end(c, units, from + 1)
    } else {
        from + 1
    }
}

/// A run is not empty, stays inside the text, holds units of one kind only,
/// and is followed by a unit of the other kind or by nothing.
pub proof fn lemma_run_end<C: Classifier>(c: C, units: Seq<Seq<char>>, from: int)
    requires
        0 <= from < units.len(),
    ensures
        from < run_end(c, units, from) <= units.len(),
        forall|j: int|
            from <= j < run_end(c, units, from) ==> c.kind_of(#[trigger] units[j]) == c.kind_of(
                units[from],
            ),
        run_end(c, units, from) < units.len() ==> c.kind_of(units[run_end(c, units, from)])
            != c.kind_of(units[from]),
    decreases units.len() - from,
{
    if from + 1 < units.len() && c.kind_of(units[from + 1]) == c.kind_of(units[from]) {
        lemma_run_end(c, units, from + 1);
    }
}

/// The tokens of the units from index `from` on: each is the text of one
/// maximal run, with the kind of its units.
pub open spec fn tokens_from<C: Classifier>(c: C, units: Seq<Seq<char>>, from: int) -> Seq<
    (Seq<char>, SortingType),
>
    decreases units.len() - from,
    via tokens_from_decreases::<C>
{
    if 0 <= from < units.len() {
        let end = run_end(c, units, from);
        seq![(units.subrange(from, end).flatten(), c.kind_of(units[from]))] + tokens_from(
            c,
            units,
            end,
        )
    } else {
        Seq::empty()
    }
}

#[via_fn]
proof fn tokens_from_decreases<C: Classifier>(c: C, units: Seq<Seq<char>>, from: int) {
    if 0 <= from < units.len() {
        lemma_run_end(c, units, from);
    }
}

/// The tokens of a text already cut into user-perceived characters.
pub open spec fn tokens_of<C: Classifier>(c: C, units: Seq<Seq<char>>) -> Seq<
    (Seq<char>, SortingType),
> {
    tokens_from(c, units, 0)
}

/// The tokens of a string under the usual rule.
pub open spec fn tokens(s: Seq<char>) -> Seq<(Seq<char>, SortingType)> {
    tokens_of(DigitRuns, grapheme_clusters(s))
}

/// `text` is made of one or more units that all have the kind `kind`.
pub open spec fn is_run_of<C: Classifier>(c: C, text: Seq<char>, kind: SortingType) -> bool {
    exists|run: Seq<Seq<char>>| is_run_by(c, text, kind, run)
}

/// The units `run`, all of the kind `kind`, make up `text`.
pub open spec fn is_run_by<C: Classifier>(
    c: C,
    text: Seq<char>,
    kind: SortingType,
    run: Seq<Seq<char>>,
) -> bool {
    &&& run.len() > 0
    &&& run.flatten() == text
    &&& forall|j: int| 0 <= j < run.len() ==> c.kind_of(#[trigger] run[j]) == kind
}

/// A numeric run under the usual rule is a non-empty run of ASCII digits.
pub proof fn lemma_numeric_run_is_digits(text: Seq<char>)
    requires
        is_run_of(DigitRuns, text, SortingType::Numeric),
    ensures
        all_digits(text),
        text.len() > 0,
{
    let run = choose|run: Seq<Seq<char>>| is_run_by(DigitRuns, text, SortingType::Numeric, run);
    assert forall|j: int| 0 <= j < run.len() implies all_digits(#[trigger] run[j]) by {
        assert(DigitRuns.kind_of(run[j]) == SortingType::Numeric);
    }
    lemma_flatten_digits(run, 0, run.len() as int);
    assert(run.subrange(0, run.len() as int) =~= run);
    assert(DigitRuns.kind_of(run[0]) == SortingType::Numeric);
    assert(run.flatten() == run.first() + run.drop_first().flatten());
}

/// The texts of a token sequence, in order.
pub open spec fn token_texts(toks: Seq<(Seq<char>, SortingType)>) -> Seq<Seq<char>> {
    Seq::new(toks.len(), |i: int| toks[i].0)
}

/// Joining the pieces `a..c` is joining `a..b` and then `b..c`.
pub proof fn lemma_flatten_range(units: Seq<Seq<char>>, a: int, b: int, c: int)
    requires
        0 <= a <= b <= c <= units.len(),
    ensures
        units.subrange(a, c).flatten() == units.subrange(a, b).flatten() + units.subrange(
            b,
            c,
        ).flatten(),
    decreases c - b,
{
    if b == c {
        assert(units.subrange(b, c) =~= Seq::<Seq<char>>::empty());
        assert(units.subrange(b, c).flatten() =~= Seq::<char>::empty());
        assert(units.subrange(a, c).flatten() =~= units.subrange(a, b).flatten()
            + units.subrange(b, c).flatten());
    } else {
        lemma_flatten_range(units, a, b, c - 1);
        assert(units.subrange(a, c) =~= units.subrange(a, c - 1).push(units[c - 1]));
        assert(units.subrange(b, c) =~= units.subrange(b, c - 1).push(units[c - 1]));
        units.subrange(a, c - 1).lemma_flatten_push(units[c - 1]);
        units.subrange(b, c - 1).lemma_flatten_push(units[c - 1]);
        assert(units.subrange(a, c).flatten() =~= units.subrange(a, b).flatten()
            + units.subrange(b, c).flatten());
    }
}

/// Digits joined to digits are digits.
pub proof fn lemma_flatten_digits(units: Seq<Seq<char>>, a: int, b: int)
    requires
        0 <= a <= b <= units.len(),
        forall|j: int| a <= j < b ==> all_digits(#[trigger] units[j]),
    ensures
        all_digits(units.subrange(a, b).flatten()),
    decreases b - a,
{
    if a == b {
        assert(units.subrange(a, b) =~= Seq::<Seq<char>>::empty());
        assert(units.subrange(a, b).flatten() =~= Seq::<char>::empty());
    } else {
        lemma_flatten_digits(units, a, b - 1);
        assert(units.subrange(a, b) =~= units.subrange(a, b - 1).push(units[b - 1]));
        units.subrange(a, b - 1).lemma_flatten_push(units[b - 1]);
        assert(all_digits(units[b - 1]));
    }
}

/// The first token of a non-empty text, and what is left after it.
pub proof fn lemma_tokens_from_step<C: Classifier>(c: C, units: Seq<Seq<char>>, from: int)
    requires
        0 <= from < units.len(),
    ensures
        tokens_from(c, units, from).len() > 0,
        tokens_from(c, units, from)[0] == (
            units.subrange(from, run_end(c, units, from)).flatten(),
            c.kind_of(units[from]),
        ),
        tokens_from(c, units, from).drop_first() == tokens_from(
            c,
            units,
            run_end(c, units, from),
        ),
{
    lemma_run_end(c, units, from);
    assert(tokens_from(c, units, from).drop_first() =~= tokens_from(
        c,
        units,
        run_end(c, units, from),
    ));
}

/// Tokens lose nothing: their texts, put end to end, are the units they were
/// cut from, put end to end.
pub proof fn lemma_tokens_cover<C: Classifier>(c: C, units: Seq<Seq<char>>, from: int)
    requires
        0 <= from <= units.len(),
    ensures
        token_texts(tokens_from(c, units, from)).flatten() == units.subrange(
            from,
            units.len() as int,
        ).flatten(),
    decreases units.len() - from,
{
    let n = units.len() as int;
    if from == n {
        assert(token_texts(tokens_from(c, units, from)) =~= Seq::<Seq<char>>::empty());
        assert(units.subrange(from, n) =~= Seq::<Seq<char>>::empty());
    } else {
        let end = run_end(c, units, from);
        lemma_run_end(c, units, from);
        lemma_tokens_from_step(c, units, from);
        lemma_tokens_cover(c, units, end);
        lemma_flatten_range(units, from, end, n);
        let tt = token_texts(tokens_from(c, units, from));
        assert(tt.drop_first() =~= token_texts(tokens_from(c, units, end)));
        assert(tt.first() == units.subrange(from, end).flatten());
    }
}

/// Two neighbouring tokens never have the same kind, so no token could have
/// been longer.
pub proof fn lemma_tokens_alternate<C: Classifier>(c: C, units: Seq<Seq<char>>, from: int, i: int)
    requires
        0 <= from <= units.len(),
        0 <= i,
        i + 1 < tokens_from(c, units, from).len(),
    ensures
        tokens_from(c, units, from)[i].1 != tokens_from(c, units, from)[i + 1].1,
    decreases i,
{
    let end = run_end(c, units, from);
    lemma_tokens_from_step(c, units, from);
    assert(tokens_from(c, units, from)[i + 1] == tokens_from(c, units, from).drop_first()[i]);
    if i == 0 {
        lemma_run_end(c, units, from);
        lemma_tokens_from_step(c, units, end);
    } else {
        assert(tokens_from(c, units, from)[i] == tokens_from(c, units, from).drop_first()[i - 1]);
        lemma_tokens_alternate(c, units, end, i - 1);
    }
}

/// A text cut into non-empty pieces has a token exactly when it is not empty.
pub proof fn lemma_tokens_empty<C: Classifier>(c: C, units: Seq<Seq<char>>, s: Seq<char>)
    requires
        segments(units, s),
    ensures
        (tokens_of(c, units).len() == 0) == (s.len() == 0),
{
    if units.len() > 0 {
        lemma_tokens_from_step(c, units, 0);
        assert(units[0].len() > 0);
        assert(units.flatten() == units.first() + units.drop_first().flatten());
    } else {
        assert(units.flatten() =~= Seq::<char>::empty());
    }
}

/// A forward-only walk over the tokens of a string.
pub struct TokenIterator<'a, C: Classifier> {
    classifier: C,
    string: &'a str,
    total: usize,
    units: Vec<&'a str>,
    pos: usize,
    offset: usize,
}

impl<'a, C: Classifier> TokenIterator<'a, C> {
    /// The iterator's fields agree: the units cut the string, and the
    /// character offset is that of the next unit.
    pub closed spec fn wf(&self) -> bool {
        &&& self.classifier.sound()
        &&& segments(texts(self.units@), self.string@)
        &&& self.total == self.string@.len()
        &&& self.pos <= self.units@.len()
        &&& self.offset == texts(self.units@).subrange(0, self.pos as int).flatten().len()
    }

    /// The string that is being walked.
    pub closed spec fn source(&self) -> Seq<char> {
        self.string@
    }

    /// The rule by which the characters are classified.
    pub closed spec fn classifier(&self) -> C {
        self.classifier
    }

    /// How many characters of the string the tokens handed out so far cover.
    pub closed spec fn position(&self) -> nat {
        self.offset as nat
    }

    /// The tokens not yet handed out.
    pub closed spec fn remaining(&self) -> Seq<(Seq<char>, SortingType)> {
        tokens_from(self.classifier, texts(self.units@), self.pos as int)
    }

    /// Starts a walk over the tokens that `s` has under the rule `classifier`.
    pub fn new(s: &'a str, classifier: C) -> (r: Self)
        requires
            classifier.sound(),
        ensures
            r.wf(),
            r.source() == s@,
            r.classifier() == classifier,
            r.position() == 0,
            r.remaining() == tokens_of(classifier, grapheme_clusters(s@)),
            token_texts(r.remaining()).flatten() == s@,
            (r.remaining().len() == 0) == (s@.len() == 0),
    {
        let units = split_graphemes(s);
        Self::from_clusters(s, units, classifier)
    }

    /// Starts a walk over the tokens that `s` has under the rule
    /// `classifier`, given the user-perceived characters `units` that `s` is
    /// made of.
    pub fn from_clusters(s: &'a str, units: Vec<&'a str>, classifier: C) -> (r: Self)
        requires
            classifier.sound(),
            segments(texts(units@), s@),
        ensures
            r.wf(),
            r.source() == s@,
            r.classifier() == classifier,
            r.position() == 0,
            r.remaining() == tokens_of(classifier, texts(units@)),
            token_texts(r.remaining()).flatten() == s@,
            (r.remaining().len() == 0) == (s@.len() == 0),
    {
        let total: usize = s.unicode_len();
        proof {
            let u = texts(units@);
            lemma_tokens_cover(classifier, u, 0);
            lemma_tokens_empty(classifier, u, s@);
            assert(u.subrange(0, u.len() as int) =~= u);
            assert(u.subrange(0, 0) =~= Seq::<Seq<char>>::empty());
            assert(u.subrange(0, 0).flatten() =~= Seq::<char>::empty());
        }
        TokenIterator { classifier, string: s, total, units, pos: 0, offset: 0 }
    }

    /// The tokens not yet handed out are exactly the part of the string that
    /// has not been covered yet: nothing is lost and nothing comes twice.
    pub proof fn lemma_remaining_covers(&self)
        requires
            self.wf(),
        ensures
            self.position() <= self.source().len(),
            token_texts(self.remaining()).flatten() == self.source().skip(self.position() as int),
    {
        let u = texts(self.units@);
        let n = u.len() as int;
        lemma_tokens_cover(self.classifier, u, self.pos as int);
        lemma_flatten_range(u, 0, self.pos as int, n);
        assert(u.subrange(0, n) =~= u);
        assert(self.string@.skip(self.offset as int) =~= u.subrange(self.pos as int, n).flatten());
    }

    /// Hands out the next token, if there is one: its kind and its text,
    /// which is the slice of the string that starts where the token before
    /// it ended.
    pub fn next(&mut self) -> (r: Option<(&'a str, SortingType)>)
        requires
            old(self).wf(),
        ensures
            final(self).wf(),
            final(self).source() == old(self).source(),
            final(self).classifier() == old(self).classifier(),
            old(self).remaining().len() == 0 ==> r is None,
            r is None ==> final(self).remaining() == old(self).remaining(),
            r is None ==> final(self).position() == old(self).position(),
            old(self).remaining().len() > 0 ==> r is Some,
            r is Some ==> r.unwrap().0@ == old(self).remaining()[0].0,
            r is Some ==> r.unwrap().1 == old(self).remaining()[0].1,
            r is Some ==> final(self).remaining() == old(self).remaining().drop_first(),
            r is Some ==> old(self).position() < final(self).position(),
            r is Some ==> final(self).position() <= old(self).source().len(),
            r is Some ==> r.unwrap().0@ == old(self).source().subrange(
                old(self).position() as int,
                final(self).position() as int,
            ),
            r is Some ==> is_run_of(old(self).classifier(), r.unwrap().0@, r.unwrap().1),
    {
        let n: usize = self.units.len();
        let ghost u = texts(self.units@);
        let ghost c = self.classifier;
        let start_unit: usize = self.pos;
        if start_unit >= n {
            return None;
        }
        let first: &str = self.units[start_unit];
        let kind = self.classifier.classify(first);
        let start: usize = self.offset;
        proof {
            lemma_flatten_range(u, 0, start_unit as int, start_unit as int + 1);
            lemma_flatten_range(u, 0, start_unit as int + 1, n as int);
            assert(u.subrange(0, n as int) =~= u);
            assert(u.subrange(start_unit as int, start_unit as int + 1) =~= seq![
                u[start_unit as int],
            ]);
            seq![u[start_unit as int]].lemma_flatten_singleton();
        }
        let mut end: usize = start + first.unicode_len();
        let mut k: usize = start_unit + 1;
        let mut going: bool = k < n;
        while going
            invariant
                n == self.units@.len(),
                u == texts(self.units@),
                u.flatten() == self.string@,
                self.total == self.string@.len(),
                start_unit < k <= n,
                end == u.subrange(0, k as int).flatten().len(),
                end <= self.total,
                c == self.classifier,
                c.sound(),
                kind == c.kind_of(u[start_unit as int]),
                kind == c.kind_of(u[k - 1]),
                run_end(c, u, start_unit as int) == run_end(c, u, k - 1),
                going ==> k < n,
                !going ==> run_end(c, u, k - 1) == k,
            decreases n - k + (if going { 1int } else { 0int }),
        {
            let unit: &str = self.units[k];
            let next_kind = self.classifier.classify(unit);
            if next_kind == kind {
                proof {
                    lemma_flatten_range(u, 0, k as int, k as int + 1);
                    lemma_flatten_range(u, 0, k as int + 1, n as int);
                    assert(u.subrange(0, n as int) =~= u);
                    assert(u.subrange(k as int, k as int + 1) =~= seq![u[k as int]]);
                    seq![u[k as int]].lemma_flatten_singleton();
                }
                end = end + unit.unicode_len();
                k = k + 1;
                going = k < n;
            } else {
                going = false;
            }
        }
        proof {
            lemma_run_end(c, u, start_unit as int);
            lemma_tokens_from_step(c, u, start_unit as int);
            lemma_flatten_range(u, 0, start_unit as int, k as int);
            lemma_flatten_range(u, 0, k as int, n as int);
            assert(u.subrange(0, n as int) =~= u);
            assert(self.string@.subrange(start as int, end as int) =~= u.subrange(
                start_unit as int,
                k as int,
            ).flatten());
            assert(is_run_by(
                c,
                self.string@.subrange(start as int, end as int),
                kind,
                u.subrange(start_unit as int, k as int),
            ));
        }
        let text: &'a str = self.string.substring_char(start, end);
        self.pos = k;
        self.offset = end;
        Some((text, kind))
    }
}

} // verus!
