//! What holds of every traversal.
use crate::fold::{fold_trace, Fold};
use crate::mutation::lifted_gives;
use crate::query::query_gives;
use crate::shape::{Call, Shape, Shaped};
use crate::transform::{calls_up, calls_up_of, postorder, postorder_of, traced_up, transform_gives};
use crate::term::{
    befores, call_at, calls, calls_of, lemma_shapes_kept_concat, preorder, preorder_of,
    shapes_kept, totals, traced, Visit,
};
use vstd::prelude::*;

verus! {

/// The number of values in a value of the given shape: the value itself
/// and everything inside its children.
pub open spec fn node_count(shape: Shape) -> nat
    decreases shape, 1nat, 0nat,
{
    1 + children_count(shape, shape.children.len())
}

/// The number of values inside the first `k` children of a value of the
/// given shape.
pub open spec fn children_count(shape: Shape, k: nat) -> nat
    decreases shape, 0nat, k,
{
    if k == 0 || k > shape.children.len() {
        0
    } else {
        children_count(shape, (k - 1) as nat) + node_count(shape.children[k - 1])
    }
}

/// Traversing a value that has no children makes one call of the query,
/// and its result is the result of the traversal.
pub proof fn lemma_everything_on_leaf<R, F: Fold<R>>(
    possible: spec_fn(R, Shape, Shape) -> bool,
    fold: F,
    shape: Shape,
    v: Visit<R>,
)
    requires
        shape.children.len() == 0,
        traced(possible, fold, shape, v),
    ensures
        calls(v) == seq![call_at(v)],
        v.total == v.result,
{
    assert(v.kids =~= Seq::<Visit<R>>::empty());
    assert(calls_of(v.kids) =~= Seq::<Call<R>>::empty());
    assert(calls(v) =~= seq![call_at(v)]);
    assert(totals(v.kids) =~= Seq::<R>::empty());
    let accs = choose|accs: Seq<R>| #[trigger] fold_trace(fold, v.result, totals(v.kids), accs) && accs.last() == v.total;
}

/// A traversal calls the query exactly once at every value inside the
/// data: it makes as many calls as the data has values.
pub proof fn lemma_everything_calls_once_per_value<R, F: Fold<R>>(
    possible: spec_fn(R, Shape, Shape) -> bool,
    fold: F,
    shape: Shape,
    v: Visit<R>,
)
    requires
        traced(possible, fold, shape, v),
    ensures
        calls(v).len() == node_count(shape),
    decreases shape, 1nat, 0nat,
{
    lemma_children_calls(possible, fold, shape, v.kids, shape.children.len());
    assert(v.kids.subrange(0, shape.children.len() as int) =~= v.kids);
}

proof fn lemma_children_calls<R, F: Fold<R>>(
    possible: spec_fn(R, Shape, Shape) -> bool,
    fold: F,
    shape: Shape,
    kids: Seq<Visit<R>>,
    k: nat,
)
    requires
        kids.len() == shape.children.len(),
        forall|i: int| 0 <= i < kids.len() ==> traced(possible, fold, shape.children[i], #[trigger] kids[i]),
        k <= kids.len(),
    ensures
        calls_of(kids.subrange(0, k as int)).len() == children_count(shape, k),
    decreases shape, 0nat, k,
{
    if k > 0 {
        lemma_children_calls(possible, fold, shape, kids, (k - 1) as nat);
        lemma_everything_calls_once_per_value(possible, fold, shape.children[k - 1], kids[k - 1]);
        let pre = kids.subrange(0, k as int);
        assert(pre.subrange(0, pre.len() - 1) =~= kids.subrange(0, k - 1));
        assert(pre[pre.len() - 1] == kids[k - 1]);
    }
}

/// Where each call of the query gives 1 and the fold adds, the traversal
/// gives the number of values in the data.
pub proof fn lemma_everything_counts_values<F: Fold<u64>>(
    possible: spec_fn(u64, Shape, Shape) -> bool,
    fold: F,
    shape: Shape,
    v: Visit<u64>,
)
    requires
        forall|x: u64, b: Shape, a: Shape| #[trigger] possible(x, b, a) ==> x == 1,
        forall|a: u64, b: u64, c: u64| #[trigger] fold.folds(a, b, c) ==> c == a + b,
        traced(possible, fold, shape, v),
    ensures
        v.total == node_count(shape),
    decreases shape,
{
    let rs = totals(v.kids);
    assert forall|i: int| 0 <= i < rs.len() implies #[trigger] rs[i] == node_count(shape.children[i]) by {
        lemma_everything_counts_values(possible, fold, shape.children[i], v.kids[i]);
    }
    let accs = choose|accs: Seq<u64>| #[trigger] fold_trace(fold, v.result, rs, accs) && accs.last() == v.total;
    assert forall|k: int| 0 <= k <= rs.len() implies #[trigger] accs[k] == 1 + children_count(
        shape,
        k as nat,
    ) by {
        lemma_trace_counts(fold, shape, rs, accs, k as nat);
    }
}

proof fn lemma_trace_counts<F: Fold<u64>>(
    fold: F,
    shape: Shape,
    rs: Seq<u64>,
    accs: Seq<u64>,
    k: nat,
)
    requires
        forall|a: u64, b: u64, c: u64| #[trigger] fold.folds(a, b, c) ==> c == a + b,
        rs.len() == shape.children.len(),
        forall|i: int| 0 <= i < rs.len() ==> #[trigger] rs[i] == node_count(shape.children[i]),
        fold_trace(fold, 1u64, rs, accs),
        k <= rs.len(),
    ensures
        accs[k as int] == 1 + children_count(shape, k),
    decreases k,
{
    if k > 0 {
        lemma_trace_counts(fold, shape, rs, accs, (k - 1) as nat);
        assert(fold.folds(accs[k - 1], rs[k - 1], accs[k as int]));
    }
}

/// The shapes that two logs record, one log after the other.
pub proof fn lemma_befores_concat<R>(a: Seq<Call<R>>, b: Seq<Call<R>>)
    ensures
        befores(a + b) == befores(a) + befores(b),
{
    assert(befores(a + b) =~= befores(a) + befores(b));
}

/// A traversal whose calls left the shape of each argument as they found
/// it made its calls on the nodes of the value in pre-order: the `k`-th
/// call was made on the `k`-th node, the value first and then everything
/// inside each child, left to right; and it found the value with the shape
/// that it left.
pub proof fn lemma_calls_follow_preorder<R, F: Fold<R>>(
    possible: spec_fn(R, Shape, Shape) -> bool,
    fold: F,
    shape: Shape,
    v: Visit<R>,
)
    requires
        traced(possible, fold, shape, v),
        shapes_kept(calls(v)),
    ensures
        v.before == shape,
        befores(calls(v)) == preorder(shape),
    decreases shape, 1nat, 0nat,
{
    let n = shape.children.len();
    lemma_shapes_kept_concat(seq![call_at(v)], calls_of(v.kids));
    assert(v.kids.subrange(0, n as int) =~= v.kids);
    assert(shape.children.subrange(0, n as int) =~= shape.children);
    lemma_kids_follow_preorder(possible, fold, shape, v.kids, n);
    assert forall|i: int| 0 <= i < n implies v.after.children[i] == shape.children[i] by {
        assert(v.kids[i].before == v.after.children[i]);
        assert(v.kids[i].before == shape.children[i]);
    }
    assert(v.after.children =~= shape.children);
    assert(seq![call_at(v)][0] == call_at(v));
    assert(seq![call_at(v)][0].before == seq![call_at(v)][0].after);
    assert(v.before == v.after);
    lemma_befores_concat(seq![call_at(v)], calls_of(v.kids));
    assert(befores(seq![call_at(v)]) =~= seq![shape]);
}

proof fn lemma_kids_follow_preorder<R, F: Fold<R>>(
    possible: spec_fn(R, Shape, Shape) -> bool,
    fold: F,
    shape: Shape,
    kids: Seq<Visit<R>>,
    k: nat,
)
    requires
        kids.len() == shape.children.len(),
        forall|i: int| 0 <= i < kids.len() ==> traced(possible, fold, shape.children[i], #[trigger] kids[i]),
        k <= kids.len(),
        shapes_kept(calls_of(kids.subrange(0, k as int))),
    ensures
        forall|i: int| 0 <= i < k ==> #[trigger] kids[i].before == shape.children[i],
        befores(calls_of(kids.subrange(0, k as int))) == preorder_of(shape.children.subrange(0, k as int)),
    decreases shape, 0nat, k,
{
    if k > 0 {
        let pre = kids.subrange(0, k as int);
        assert(pre.subrange(0, pre.len() - 1) =~= kids.subrange(0, k - 1));
        assert(pre[pre.len() - 1] == kids[k - 1]);
        let cs = shape.children.subrange(0, k as int);
        assert(cs.subrange(0, cs.len() - 1) =~= shape.children.subrange(0, k - 1));
        assert(cs[cs.len() - 1] == shape.children[k - 1]);
        lemma_shapes_kept_concat(calls_of(kids.subrange(0, k - 1)), calls(kids[k - 1]));
        lemma_kids_follow_preorder(possible, fold, shape, kids, (k - 1) as nat);
        lemma_calls_follow_preorder(possible, fold, shape.children[k - 1], kids[k - 1]);
        lemma_befores_concat(calls_of(kids.subrange(0, k - 1)), calls(kids[k - 1]));
    } else {
        assert(befores(calls_of(kids.subrange(0, 0))) =~= Seq::<Shape>::empty());
    }
}

/// A lifted function gives its results only on values of the shapes that
/// values of its own type have: where no `U` has the argument's shape, a
/// mutation gives its default result and leaves the argument as it was.
pub proof fn lemma_mutation_needs_its_shape<M: Fn(&mut U) -> R, U: Shaped, R>(f: M, r: R, s: Shape)
    requires
        forall|u: U| #[trigger] u.shape() != s,
    ensures
        !lifted_gives(f, r, s),
{
    if lifted_gives(f, r, s) {
        let u = choose|u: &mut U| #[trigger] call_ensures(f, (u,), r) && u.shape() == s;
        assert((*u).shape() != s);
    }
}

/// A lifted function gives its results only on values of the shapes that
/// values of its own type have: where no `U` has the argument's shape, a
/// query gives its default result.
pub proof fn lemma_query_needs_its_shape<Q: Fn(&U) -> R, U: Shaped, R>(f: Q, r: R, s: Shape)
    requires
        forall|u: U| #[trigger] u.shape() != s,
    ensures
        !query_gives(f, r, s),
{
    if query_gives(f, r, s) {
        let u = choose|u: &U| #[trigger] call_ensures(f, (u,), r) && u.shape() == s;
        assert((*u).shape() != s);
    }
}

/// A bottom-up traversal whose calls left the shape of each value as they
/// found it made its calls on the nodes of the value in post-order: the
/// `k`-th call was made on the `k`-th node, everything inside each child
/// first, left to right, and then the value; and it left the value with
/// the shape that it had.
pub proof fn lemma_calls_follow_postorder(possible: spec_fn(Shape, Shape) -> bool, shape: Shape, v: Visit<()>)
    requires
        traced_up(possible, shape, v),
        shapes_kept(calls_up(v)),
    ensures
        v.after == shape,
        befores(calls_up(v)) == postorder(shape),
    decreases shape, 1nat, 0nat,
{
    let n = shape.children.len();
    let top = seq![Call { result: (), before: v.before, after: v.after, kept: v.kept }];
    lemma_shapes_kept_concat(calls_up_of(v.kids), top);
    assert(v.kids.subrange(0, n as int) =~= v.kids);
    assert(shape.children.subrange(0, n as int) =~= shape.children);
    lemma_kids_follow_postorder(possible, shape, v.kids, n);
    assert forall|i: int| 0 <= i < n implies v.before.children[i] == shape.children[i] by {
        assert(v.before.children[i] == v.kids[i].after);
    }
    assert(v.before.children =~= shape.children);
    assert(top[0].before == top[0].after);
    lemma_befores_concat(calls_up_of(v.kids), top);
    assert(befores(top) =~= seq![shape]);
}

proof fn lemma_kids_follow_postorder(
    possible: spec_fn(Shape, Shape) -> bool,
    shape: Shape,
    kids: Seq<Visit<()>>,
    k: nat,
)
    requires
        kids.len() == shape.children.len(),
        forall|i: int| 0 <= i < kids.len() ==> traced_up(possible, shape.children[i], #[trigger] kids[i]),
        k <= kids.len(),
        shapes_kept(calls_up_of(kids.subrange(0, k as int))),
    ensures
        forall|i: int| 0 <= i < k ==> #[trigger] kids[i].after == shape.children[i],
        befores(calls_up_of(kids.subrange(0, k as int))) == postorder_of(shape.children.subrange(0, k as int)),
    decreases shape, 0nat, k,
{
    if k > 0 {
        let pre = kids.subrange(0, k as int);
        assert(pre.subrange(0, pre.len() - 1) =~= kids.subrange(0, k - 1));
        assert(pre[pre.len() - 1] == kids[k - 1]);
        let cs = shape.children.subrange(0, k as int);
        assert(cs.subrange(0, cs.len() - 1) =~= shape.children.subrange(0, k - 1));
        assert(cs[cs.len() - 1] == shape.children[k - 1]);
        lemma_shapes_kept_concat(calls_up_of(kids.subrange(0, k - 1)), calls_up(kids[k - 1]));
        lemma_kids_follow_postorder(possible, shape, kids, (k - 1) as nat);
        lemma_calls_follow_postorder(possible, shape.children[k - 1], kids[k - 1]);
        lemma_befores_concat(calls_up_of(kids.subrange(0, k - 1)), calls_up(kids[k - 1]));
    } else {
        assert(befores(calls_up_of(kids.subrange(0, 0))) =~= Seq::<Shape>::empty());
    }
}

/// A bottom-up traversal calls the transformation exactly once at every
/// value inside the data: it makes as many calls as the data had values.
pub proof fn lemma_everywhere_calls_once_per_value(
    possible: spec_fn(Shape, Shape) -> bool,
    shape: Shape,
    v: Visit<()>,
)
    requires
        traced_up(possible, shape, v),
    ensures
        calls_up(v).len() == node_count(shape),
    decreases shape, 1nat, 0nat,
{
    lemma_children_calls_up(possible, shape, v.kids, shape.children.len());
    assert(v.kids.subrange(0, shape.children.len() as int) =~= v.kids);
}

proof fn lemma_children_calls_up(possible: spec_fn(Shape, Shape) -> bool, shape: Shape, kids: Seq<Visit<()>>, k: nat)
    requires
        kids.len() == shape.children.len(),
        forall|i: int| 0 <= i < kids.len() ==> traced_up(possible, shape.children[i], #[trigger] kids[i]),
        k <= kids.len(),
    ensures
        calls_up_of(kids.subrange(0, k as int)).len() == children_count(shape, k),
    decreases shape, 0nat, k,
{
    if k > 0 {
        lemma_children_calls_up(possible, shape, kids, (k - 1) as nat);
        lemma_everywhere_calls_once_per_value(possible, shape.children[k - 1], kids[k - 1]);
        let pre = kids.subrange(0, k as int);
        assert(pre.subrange(0, pre.len() - 1) =~= kids.subrange(0, k - 1));
        assert(pre[pre.len() - 1] == kids[k - 1]);
    }
}

/// A lifted function gives its results only on values of the shapes that
/// values of its own type have: where no `U` has the argument's shape, a
/// transformation gives the argument back as it was.
pub proof fn lemma_transformation_needs_its_shape<F: Fn(U) -> U, U: Shaped>(f: F, before: Shape, after: Shape)
    requires
        forall|u: U| #[trigger] u.shape() != before,
    ensures
        !transform_gives(f, before, after),
{
    if transform_gives(f, before, after) {
        let (u, w) = choose|u: U, w: U| #[trigger] call_ensures(f, (u,), w) && u.shape() == before && w.shape() == after;
        assert(u.shape() != before);
    }
}

} // verus!
