//! Joining the results of a traversal.
use vstd::prelude::*;

verus! {

/// A way of joining two query results into one, used by a traversal to
/// combine the result at a node with the results of its children.
///
/// It is implemented for every closure `Fn(R, R) -> R` and for
/// [`DiscardResults`], which joins unit results.
pub trait Fold<R>: Sized {
    /// `r` is a result that joining `a` and `b` may give.
    spec fn folds(&self, a: R, b: R, r: R) -> bool;

    /// The join may be called on any two results.
    spec fn callable(&self) -> bool;

    /// Joins `a` and `b`.
    fn fold(&mut self, a: R, b: R) -> (r: R)
        requires
            old(self).callable(),
        ensures
            *final(self) == *old(self),
            old(self).folds(a, b, r),
    ;
}

impl<R, F: Fn(R, R) -> R> Fold<R> for F {
    open spec fn folds(&self, a: R, b: R, r: R) -> bool {
        call_ensures(*self, (a, b), r)
    }

    open spec fn callable(&self) -> bool {
        forall|a: R, b: R| call_requires(*self, (a, b))
    }

    fn fold(&mut self, a: R, b: R) -> (r: R) {
        broadcast use vstd::function::group_function_axioms;

        (self)(a, b)
    }
}

/// The join of unit results, for traversals that are run only for their
/// effect on the data.
pub struct DiscardResults;

impl Fold<()> for DiscardResults {
    open spec fn folds(&self, a: (), b: (), r: ()) -> bool {
        true
    }

    open spec fn callable(&self) -> bool {
        true
    }

    fn fold(&mut self, a: (), b: ()) -> (r: ()) {
    }
}

/// `accs` is a run of `fold` over `results` from `acc`: `accs[0]` is `acc`
/// and each `accs[i + 1]` is a join of `accs[i]` with `results[i]`.
pub open spec fn fold_trace<R, F: Fold<R>>(fold: F, acc: R, results: Seq<R>, accs: Seq<R>) -> bool {
    &&& accs.len() == results.len() + 1
    &&& accs[0] == acc
    &&& forall|i: int|
        0 <= i < results.len() ==> fold.folds(#[trigger] accs[i], results[i], accs[i + 1])
}

/// `r` is a result of folding `results`, left to right, into `acc` with `fold`.
pub open spec fn folds_left<R, F: Fold<R>>(fold: F, acc: R, results: Seq<R>, r: R) -> bool {
    exists|accs: Seq<R>| #[trigger] fold_trace(fold, acc, results, accs) && accs.last() == r
}

/// Folding no results gives the starting value back.
pub proof fn lemma_folds_left_empty<R, F: Fold<R>>(fold: F, acc: R)
    ensures
        folds_left(fold, acc, Seq::empty(), acc),
{
    assert(fold_trace(fold, acc, Seq::empty(), seq![acc]));
}

/// A run of a fold extended by one more join.
pub proof fn lemma_fold_trace_push<R, F: Fold<R>>(
    fold: F,
    acc: R,
    results: Seq<R>,
    accs: Seq<R>,
    x: R,
    next: R,
)
    requires
        fold_trace(fold, acc, results, accs),
        fold.folds(accs.last(), x, next),
    ensures
        fold_trace(fold, acc, results.push(x), accs.push(next)),
        folds_left(fold, acc, results.push(x), next),
{
    let rs = results.push(x);
    let acs = accs.push(next);
    assert forall|i: int| 0 <= i < rs.len() implies fold.folds(#[trigger] acs[i], rs[i], acs[i + 1]) by {
        if i < results.len() {
            assert(acs[i] == accs[i] && rs[i] == results[i] && acs[i + 1] == accs[i + 1]);
        }
    }
    assert(fold_trace(fold, acc, rs, acs));
    assert(acs.last() == next);
}

} // verus!
