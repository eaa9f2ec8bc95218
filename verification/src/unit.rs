//! Folding a sequence of `Result` outcomes into a single outcome.
//!
//! Each item of the sequence is either a success or an error. Two aggregation
//! policies are offered: `fail_fast` stops at the first error and leaves the
//! rest of the sequence untouched, while `last_err` drains the whole sequence
//! and reports only the most recently seen error. When no error occurs, both
//! return the canonical unit value of the success type.

use vstd::prelude::*;

verus! {

/// A success type with a canonical "no information" value.
///
/// The fold operations synthesize a success payload only when no failure
/// occurred, and they must not guess one from observed payloads; this trait
/// supplies the single canonical value they are allowed to produce. It is
/// meant for void-like types: a richer type may implement it, but its payload
/// is then replaced by the canonical value on an all-success fold.
pub trait FromUnit: Sized {
    /// The canonical unit value of the type.
    spec fn unit_spec() -> Self;

    /// Produce the canonical unit value.
    fn from_unit() -> (t: Self)
        ensures
            t == Self::unit_spec(),
    ;
}

impl FromUnit for () {
    open spec fn unit_spec() -> Self {
        ()
    }

    fn from_unit() -> (t: Self) {
        ()
    }
}

/// A zero-payload success marker, for callers whose success type should be a
/// named unit rather than `()`.
#[derive(Clone, Copy, Debug, PartialEq, Eq, Structural)]
pub struct Unit;

impl FromUnit for Unit {
    open spec fn unit_spec() -> Self {
        Unit
    }

    fn from_unit() -> (t: Self) {
        Unit
    }
}

/// The error-filtered view of a sequence of outcomes: the `Err` payloads in
/// their original order, with every success skipped.
pub open spec fn errors_of<T, E>(s: Seq<Result<T, E>>) -> Seq<E>
    decreases s.len(),
{
    if s.len() == 0 {
        Seq::empty()
    } else {
        match s[0] {
            Result::Ok(_) => errors_of(s.drop_first()),
            Result::Err(e) => seq![e] + errors_of(s.drop_first()),
        }
    }
}

/// The index of the first `Err` in `s`, or `s.len()` when every outcome is a
/// success.
pub open spec fn first_failure<T, E>(s: Seq<Result<T, E>>) -> int
    decreases s.len(),
{
    if s.len() == 0 {
        0
    } else if s[0] is Err {
        0
    } else {
        1 + first_failure(s.drop_first())
    }
}

/// The index of the last `Err` in `s`, or `-1` when every outcome is a
/// success.
pub open spec fn last_failure<T, E>(s: Seq<Result<T, E>>) -> int
    decreases s.len(),
{
    if s.len() == 0 {
        -1
    } else if s.last() is Err {
        s.len() - 1
    } else {
        last_failure(s.drop_last())
    }
}

/// The aggregate outcome of `s` under the fail-fast policy: the earliest
/// error if any outcome failed, the canonical unit value otherwise.
pub open spec fn fail_fast_spec<T: FromUnit, E>(s: Seq<Result<T, E>>) -> Result<T, E> {
    if errors_of(s).len() == 0 {
        Result::Ok(T::unit_spec())
    } else {
        Result::Err(errors_of(s)[0])
    }
}

/// The aggregate outcome of `s` under the last-error policy: the latest error
/// if any outcome failed, the canonical unit value otherwise.
pub open spec fn last_err_spec<T: FromUnit, E>(s: Seq<Result<T, E>>) -> Result<T, E> {
    if errors_of(s).len() == 0 {
        Result::Ok(T::unit_spec())
    } else {
        Result::Err(errors_of(s).last())
    }
}

/// Folds a single-pass sequence of outcomes into one outcome.
///
/// `pending` is the sequence of outcomes the implementor has not yet
/// consumed; both operations describe their result and what they leave
/// pending in terms of it.
pub trait FoldUnit<T: FromUnit, E> {
    /// The outcomes not yet consumed, in traversal order.
    spec fn pending(&self) -> Seq<Result<T, E>>;

    /// Stop on the first error, skipping all subsequent outcomes.
    ///
    /// Consumes the sequence only up to and including the first failure, so
    /// everything strictly after it stays pending and is never observed; a
    /// sequence without failures is drained and yields the canonical unit
    /// value.
    fn fail_fast(&mut self) -> (r: Result<T, E>)
        ensures
            r == fail_fast_spec(old(self).pending()),
            errors_of(old(self).pending()).len() == 0 ==> final(self).pending()
                == Seq::<Result<T, E>>::empty(),
            errors_of(old(self).pending()).len() > 0 ==> final(self).pending()
                == old(self).pending().skip(first_failure(old(self).pending()) + 1),
    ;

    /// Drain the whole sequence, ignoring all but the last error.
    ///
    /// Every outcome is consumed exactly once, in order, even when earlier
    /// ones failed; a sequence without failures yields the canonical unit
    /// value.
    fn last_err(&mut self) -> (r: Result<T, E>)
        ensures
            r == last_err_spec(old(self).pending()),
            final(self).pending() == Seq::<Result<T, E>>::empty(),
    ;
}

/// A single-pass, owned sequence of outcomes.
///
/// The outcomes are held back to front, so that the next one to be consumed
/// pops off the end of the vector in constant time.
pub struct OutcomeIter<T, E> {
    rev: Vec<Result<T, E>>,
}

impl<T, E> OutcomeIter<T, E> {
    /// The outcomes not yet consumed, in traversal order.
    pub closed spec fn outcomes(&self) -> Seq<Result<T, E>> {
        self.rev@.reverse()
    }

    /// Build a sequence of outcomes from a vector; they are traversed in the
    /// vector's own order.
    #[verifier::loop_isolation(false)]
    pub fn new(items: Vec<Result<T, E>>) -> (it: Self)
        ensures
            it.outcomes() == items@,
    {
        let ghost orig: Seq<Result<T, E>> = items@;
        let mut src = items;
        let mut rev: Vec<Result<T, E>> = Vec::new();
        proof {
            assert(src@ + rev@.reverse() =~= orig);
        }
        loop
            invariant
                src@ + rev@.reverse() == orig,
            decreases src@.len(),
        {
            match src.pop() {
                Option::None => {
                    proof {
                        assert(rev@.reverse() =~= orig);
                    }
                    return OutcomeIter { rev };
                },
                Option::Some(x) => {
                    proof {
                        lemma_reverse_push(rev@, x);
                    }
                    rev.push(x);
                    proof {
                        assert(src@ + rev@.reverse() =~= orig);
                    }
                },
            }
        }
    }

    /// How many outcomes are still pending.
    pub fn remaining(&self) -> (n: usize)
        ensures
            n == self.outcomes().len(),
    {
        proof {
            lemma_reverse_basics(self.rev@);
        }
        self.rev.len()
    }
}

impl<T: FromUnit, E> FoldUnit<T, E> for OutcomeIter<T, E> {
    open spec fn pending(&self) -> Seq<Result<T, E>> {
        self.outcomes()
    }

    #[verifier::loop_isolation(false)]
    fn fail_fast(&mut self) -> (r: Result<T, E>) {
        let ghost orig: Seq<Result<T, E>> = self.pending();
        let ghost mut k: int = 0;
        loop
            invariant
                0 <= k <= orig.len(),
                self.pending() == orig.skip(k),
                forall|i: int| 0 <= i < k ==> orig[i] is Ok,
            decreases orig.len() - k,
        {
            proof {
                lemma_reverse_basics(self.rev@);
            }
            match self.rev.pop() {
                Option::None => {
                    proof {
                        assert(self.pending() =~= Seq::<Result<T, E>>::empty());
                        assert(orig.skip(k).len() == 0);
                        lemma_skip_all_ok(orig, k);
                        assert(errors_of(orig.skip(k)) =~= Seq::<E>::empty());
                    }
                    return Result::Ok(T::from_unit());
                },
                Option::Some(x) => {
                    proof {
                        assert(self.pending() =~= orig.skip(k).drop_first());
                        assert(orig.skip(k).drop_first() =~= orig.skip(k + 1));
                        assert(orig.skip(k)[0] == orig[k]);
                        assert(x == orig[k]);
                    }
                    match x {
                        Result::Ok(_) => {
                            proof {
                                k = k + 1;
                            }
                        },
                        Result::Err(e) => {
                            proof {
                                lemma_skip_all_ok(orig, k);
                                assert(errors_of(orig.skip(k))[0] == e);
                                assert(first_failure(orig.skip(k)) == 0);
                            }
                            return Result::Err(e);
                        },
                    }
                },
            }
        }
    }

    #[verifier::loop_isolation(false)]
    fn last_err(&mut self) -> (r: Result<T, E>) {
        let ghost orig: Seq<Result<T, E>> = self.pending();
        let ghost mut k: int = 0;
        let mut seen: Option<E> = Option::None;
        loop
            invariant
                0 <= k <= orig.len(),
                self.pending() == orig.skip(k),
                match seen {
                    Option::None => errors_of(orig.take(k)).len() == 0,
                    Option::Some(e) => errors_of(orig.take(k)).len() > 0 && errors_of(
                        orig.take(k),
                    ).last() == e,
                },
            decreases orig.len() - k,
        {
            proof {
                lemma_reverse_basics(self.rev@);
            }
            match self.rev.pop() {
                Option::None => {
                    proof {
                        assert(self.pending() =~= Seq::<Result<T, E>>::empty());
                        assert(orig.skip(k).len() == 0);
                        assert(orig.take(k) =~= orig);
                    }
                    match seen {
                        Option::None => {
                            return Result::Ok(T::from_unit());
                        },
                        Option::Some(e) => {
                            proof {
                                assert(errors_of(orig).last() == e);
                            }
                            return Result::Err(e);
                        },
                    }
                },
                Option::Some(x) => {
                    proof {
                        assert(self.pending() =~= orig.skip(k).drop_first());
                        assert(orig.skip(k).drop_first() =~= orig.skip(k + 1));
                        assert(orig.skip(k)[0] == orig[k]);
                        assert(x == orig[k]);
                        assert(orig.take(k + 1) =~= orig.take(k).push(orig[k]));
                        lemma_errors_of_push(orig.take(k), orig[k]);
                    }
                    match x {
                        Result::Ok(_) => {
                            proof {
                                k = k + 1;
                            }
                        },
                        Result::Err(e) => {
                            seen = Option::Some(e);
                            proof {
                                k = k + 1;
                            }
                        },
                    }
                },
            }
        }
    }
}

/// The error-filtered view of a sequence is non-empty exactly when some
/// outcome in it is a failure.
pub proof fn lemma_errors_of_nonempty<T, E>(s: Seq<Result<T, E>>)
    ensures
        errors_of(s).len() > 0 <==> exists|i: int| 0 <= i < s.len() && s[i] is Err,
    decreases s.len(),
{
    if s.len() > 0 {
        lemma_errors_of_nonempty(s.drop_first());
        if s[0] is Err {
            assert(0 <= 0 < s.len() && s[0] is Err);
        } else {
            if errors_of(s).len() > 0 {
                let i = choose|i: int|
                    0 <= i < s.drop_first().len() && s.drop_first()[i] is Err;
                assert(0 <= i + 1 < s.len() && s[i + 1] is Err);
            }
            if exists|i: int| 0 <= i < s.len() && s[i] is Err {
                let i = choose|i: int| 0 <= i < s.len() && s[i] is Err;
                assert(s.drop_first()[i - 1] is Err);
            }
        }
    }
}

/// A sequence containing no failures folds to the canonical success under
/// both policies.
pub proof fn lemma_no_failures<T: FromUnit, E>(s: Seq<Result<T, E>>)
    requires
        forall|i: int| 0 <= i < s.len() ==> s[i] is Ok,
    ensures
        errors_of(s).len() == 0,
        fail_fast_spec(s) == Result::<T, E>::Ok(T::unit_spec()),
        last_err_spec(s) == Result::<T, E>::Ok(T::unit_spec()),
{
    lemma_errors_of_nonempty(s);
    if errors_of(s).len() > 0 {
        let i = choose|i: int| 0 <= i < s.len() && s[i] is Err;
        assert(s[i] is Ok);
    }
}

/// An empty sequence folds to the canonical success under both policies.
pub proof fn lemma_empty_success<T: FromUnit, E>()
    ensures
        fail_fast_spec(Seq::<Result<T, E>>::empty()) == Result::<T, E>::Ok(T::unit_spec()),
        last_err_spec(Seq::<Result<T, E>>::empty()) == Result::<T, E>::Ok(T::unit_spec()),
{
    assert(errors_of(Seq::<Result<T, E>>::empty()) =~= Seq::<E>::empty());
}

/// A sequence containing at least one failure folds, under the fail-fast
/// policy, to exactly the error of its earliest failure: every outcome before
/// position `first_failure(s)` is a success, the outcome there is a failure,
/// and its error is the one reported.
pub proof fn lemma_fail_fast_reports_first<T: FromUnit, E>(s: Seq<Result<T, E>>)
    requires
        exists|i: int| 0 <= i < s.len() && s[i] is Err,
    ensures
        0 <= first_failure(s) < s.len(),
        s[first_failure(s)] is Err,
        forall|j: int| 0 <= j < first_failure(s) ==> s[j] is Ok,
        errors_of(s).len() > 0,
        fail_fast_spec(s) == Result::<T, E>::Err(s[first_failure(s)]->Err_0),
    decreases s.len(),
{
    if s[0] is Err {
    } else {
        let i = choose|i: int| 0 <= i < s.len() && s[i] is Err;
        assert(s.drop_first()[i - 1] is Err);
        lemma_fail_fast_reports_first(s.drop_first());
        assert(s[first_failure(s)] == s.drop_first()[first_failure(s.drop_first())]);
        assert forall|j: int| 0 <= j < first_failure(s) implies s[j] is Ok by {
            if j >= 1 {
                assert(s.drop_first()[j - 1] is Ok);
            }
        }
    }
}

/// A sequence containing at least one failure folds, under the last-error
/// policy, to exactly the error of its latest failure: every outcome after
/// position `last_failure(s)` is a success, the outcome there is a failure,
/// and its error is the one reported.
pub proof fn lemma_last_err_reports_last<T: FromUnit, E>(s: Seq<Result<T, E>>)
    requires
        exists|i: int| 0 <= i < s.len() && s[i] is Err,
    ensures
        0 <= last_failure(s) < s.len(),
        s[last_failure(s)] is Err,
        forall|j: int| last_failure(s) < j < s.len() ==> s[j] is Ok,
        errors_of(s).len() > 0,
        last_err_spec(s) == Result::<T, E>::Err(s[last_failure(s)]->Err_0),
    decreases s.len(),
{
    assert(s =~= s.drop_last().push(s.last()));
    lemma_errors_of_push(s.drop_last(), s.last());
    if s.last() is Err {
    } else {
        let i = choose|i: int| 0 <= i < s.len() && s[i] is Err;
        assert(i < s.len() - 1);
        assert(s.drop_last()[i] is Err);
        lemma_last_err_reports_last(s.drop_last());
        assert(s[last_failure(s)] == s.drop_last()[last_failure(s.drop_last())]);
        assert forall|j: int| last_failure(s) < j < s.len() implies s[j] is Ok by {
            if j < s.len() - 1 {
                assert(s.drop_last()[j] is Ok);
            }
        }
    }
}

/// A sequence with exactly one failure folds to the same outcome under both
/// policies: each identifies that single error.
pub proof fn lemma_single_failure_agrees<T: FromUnit, E>(s: Seq<Result<T, E>>)
    requires
        errors_of(s).len() == 1,
    ensures
        fail_fast_spec(s) == last_err_spec(s),
{
    assert(errors_of(s).last() == errors_of(s)[0]);
}

/// When the first `k` outcomes of `s` are successes, skipping them changes
/// neither the error-filtered view nor which failure comes first.
proof fn lemma_skip_all_ok<T, E>(s: Seq<Result<T, E>>, k: int)
    requires
        0 <= k <= s.len(),
        forall|i: int| 0 <= i < k ==> s[i] is Ok,
    ensures
        errors_of(s) == errors_of(s.skip(k)),
        first_failure(s) == k + first_failure(s.skip(k)),
    decreases k,
{
    if k == 0 {
        assert(s.skip(0) =~= s);
    } else {
        assert(s[0] is Ok);
        lemma_skip_all_ok(s.drop_first(), k - 1);
        assert(s.drop_first().skip(k - 1) =~= s.skip(k));
    }
}

/// Appending one outcome appends its error, if it is one, to the
/// error-filtered view.
proof fn lemma_errors_of_push<T, E>(s: Seq<Result<T, E>>, x: Result<T, E>)
    ensures
        errors_of(s.push(x)) == match x {
            Result::Ok(_) => errors_of(s),
            Result::Err(e) => errors_of(s).push(e),
        },
    decreases s.len(),
{
    if s.len() == 0 {
        assert(s =~= Seq::<Result<T, E>>::empty());
        assert(s.push(x)[0] == x);
        assert(s.push(x).drop_first() =~= Seq::<Result<T, E>>::empty());
        match x {
            Result::Ok(_) => {
                assert(errors_of(s.push(x)) =~= errors_of(s));
            },
            Result::Err(e) => {
                assert(errors_of(s.push(x)) =~= errors_of(s).push(e));
            },
        }
    } else {
        assert(s.push(x)[0] == s[0]);
        assert(s.push(x).drop_first() =~= s.drop_first().push(x));
        lemma_errors_of_push(s.drop_first(), x);
        match s[0] {
            Result::Ok(_) => {
            },
            Result::Err(e0) => {
                match x {
                    Result::Ok(_) => {
                    },
                    Result::Err(e) => {
                        assert(seq![e0] + errors_of(s.drop_first()).push(e) =~= (
                        seq![e0] + errors_of(s.drop_first())).push(e));
                    },
                }
            },
        }
    }
}

/// Facts about `reverse` that the sequence type leans on: its length, its
/// first element, and how removing the source's last element drops the
/// reversed sequence's first.
proof fn lemma_reverse_basics<A>(s: Seq<A>)
    ensures
        s.reverse().len() == s.len(),
        s.len() > 0 ==> s.reverse()[0] == s.last(),
        s.len() > 0 ==> s.drop_last().reverse() == s.reverse().drop_first(),
{
    if s.len() > 0 {
        assert(s.drop_last().reverse() =~= s.reverse().drop_first());
    } else {
        assert(s.reverse() =~= Seq::<A>::empty());
    }
}

/// Pushing one element onto the source prepends it to the reversed sequence.
proof fn lemma_reverse_push<A>(s: Seq<A>, x: A)
    ensures
        s.push(x).reverse() == seq![x] + s.reverse(),
{
    assert(s.push(x).reverse() =~= seq![x] + s.reverse());
}

} // verus!

