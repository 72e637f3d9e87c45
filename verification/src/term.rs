//! Values that a traversal can walk through, and what a traversal records.
use crate::fold::{fold_trace, folds_left, lemma_fold_trace_push, lemma_folds_left_empty, Fold};
use crate::mutation::{same_query, GenericMutate};
use crate::transform::{
    calls_up, calls_up_of, lemma_calls_up_of_push, lemma_possible_change_same, possible_change,
    same_transform, traced_up, traced_up_all, GenericTransform,
};
use crate::query::{lemma_possible_query_same, possible_query, same_queried, GenericQuery};
pub use crate::shape::{leaf, leaf_with, Call, Label, Shape, Shaped};
use vstd::prelude::*;

verus! {

/// The calls that a traversal made at a node and inside it: the call of
/// the query at the node (its result, the node's shape before and after
/// it, and whether it left the node as it was), the traversals of the
/// node's children, and the result of the whole.
pub struct Visit<R> {
    pub result: R,
    pub before: Shape,
    pub after: Shape,
    pub kept: bool,
    pub kids: Seq<Visit<R>>,
    pub total: R,
}

/// The call of the query made at the node of `v`.
pub open spec fn call_at<R>(v: Visit<R>) -> Call<R> {
    Call { result: v.result, before: v.before, after: v.after, kept: v.kept }
}

/// The calls of the query made by a traversal, in the order in which they
/// were made: at the node first, then inside each child in turn.
pub open spec fn calls<R>(v: Visit<R>) -> Seq<Call<R>>
    decreases v,
{
    seq![call_at(v)] + calls_of(v.kids)
}

/// The calls of the query made by the traversals `vs`, one after the other.
pub open spec fn calls_of<R>(vs: Seq<Visit<R>>) -> Seq<Call<R>>
    decreases vs,
{
    if vs.len() == 0 {
        Seq::empty()
    } else {
        calls_of(vs.subrange(0, vs.len() - 1)) + calls(vs[vs.len() - 1])
    }
}

/// Every call recorded in `log` left its argument as it was.
pub open spec fn all_kept<R>(log: Seq<Call<R>>) -> bool {
    forall|k: int| 0 <= k < log.len() ==> #[trigger] log[k].kept
}

/// Every call recorded in `log` left the shape of its argument as it was.
pub open spec fn shapes_kept<R>(log: Seq<Call<R>>) -> bool {
    forall|k: int| 0 <= k < log.len() ==> #[trigger] log[k].before == log[k].after
}

/// The shapes of the arguments of the calls recorded in `log`, as each
/// call found its argument.
pub open spec fn befores<R>(log: Seq<Call<R>>) -> Seq<Shape> {
    Seq::new(log.len(), |k: int| log[k].before)
}

/// The nodes of a value of shape `s`, in pre-order: the value itself, then
/// the nodes of each child in turn.
pub open spec fn preorder(s: Shape) -> Seq<Shape>
    decreases s,
{
    seq![s] + preorder_of(s.children)
}

/// The nodes of values of shapes `ss`, one value after the other.
pub open spec fn preorder_of(ss: Seq<Shape>) -> Seq<Shape>
    decreases ss,
{
    if ss.len() == 0 {
        Seq::empty()
    } else {
        preorder_of(ss.subrange(0, ss.len() - 1)) + preorder(ss[ss.len() - 1])
    }
}

/// The results of the traversals `vs`.
pub open spec fn totals<R>(vs: Seq<Visit<R>>) -> Seq<R> {
    Seq::new(vs.len(), |i: int| vs[i].total)
}

/// What one call of `m` may give, on an argument of shape `before` that it
/// leaves with shape `after`: a result of the underlying function applied
/// to a value of shape `before`, or a default result that leaves the shape
/// as it was.
pub open spec fn possible<R, M: GenericMutate<R>>(m: M) -> spec_fn(R, Shape, Shape) -> bool {
    |x: R, before: Shape, after: Shape| m.applied(x, before) || (m.defaulted(x) && before == after)
}

/// `v` is a traversal that left a value with the given (final) shape: at
/// the node, one call of a query that may give the results in `possible`,
/// which left the node holding what it holds at the end and with as many
/// children; then one traversal of each child, in order, each starting from
/// that child as the call at the node left it; and the result at the node
/// folded with the children's results left to right.
pub open spec fn traced<R, F: Fold<R>>(
    possible: spec_fn(R, Shape, Shape) -> bool,
    fold: F,
    shape: Shape,
    v: Visit<R>,
) -> bool
    decreases shape,
{
    &&& possible(v.result, v.before, v.after)
    &&& v.after.label == shape.label
    &&& v.after.children.len() == shape.children.len()
    &&& v.kids.len() == shape.children.len()
    &&& forall|i: int|
        0 <= i < v.kids.len() ==> {
            &&& traced(possible, fold, shape.children[i], #[trigger] v.kids[i])
            &&& v.kids[i].before == v.after.children[i]
        }
    &&& folds_left(fold, v.result, totals(v.kids), v.total)
}

/// `vs` are traversals of children, one for one: the `i`-th started from
/// the shape `starts[i]` and left the shape `ends[i]`.
pub open spec fn traced_all<R, F: Fold<R>>(
    possible: spec_fn(R, Shape, Shape) -> bool,
    fold: F,
    starts: Seq<Shape>,
    ends: Seq<Shape>,
    vs: Seq<Visit<R>>,
) -> bool {
    &&& vs.len() == starts.len()
    &&& vs.len() == ends.len()
    &&& forall|i: int|
        0 <= i < vs.len() ==> {
            &&& traced(possible, fold, ends[i], #[trigger] vs[i])
            &&& vs[i].before == starts[i]
        }
}

/// Two queries that are the same query may give the same results.
pub proof fn lemma_possible_same<R, M: GenericMutate<R>>(a: M, b: M)
    requires
        same_query(a, b),
    ensures
        possible(a) == possible(b),
{
    assert(possible(a) =~= possible(b));
}

/// The calls of traversals, one more traversal added at the end.
pub proof fn lemma_calls_of_push<R>(vs: Seq<Visit<R>>, v: Visit<R>)
    ensures
        calls_of(vs.push(v)) == calls_of(vs) + calls(v),
        totals(vs.push(v)) == totals(vs).push(v.total),
{
    assert(vs.push(v).subrange(0, vs.len() as int) =~= vs);
    assert(totals(vs.push(v)) =~= totals(vs).push(v.total));
}

/// Every call in two logs left its argument as it was if, and only if,
/// every call in each of them did.
pub proof fn lemma_all_kept_concat<R>(a: Seq<Call<R>>, b: Seq<Call<R>>)
    ensures
        all_kept(a + b) == (all_kept(a) && all_kept(b)),
{
    if all_kept(a + b) {
        assert forall|k: int| 0 <= k < a.len() implies #[trigger] a[k].kept by {
            assert((a + b)[k] == a[k]);
        }
        assert forall|k: int| 0 <= k < b.len() implies #[trigger] b[k].kept by {
            assert((a + b)[a.len() + k] == b[k]);
        }
    }
    if all_kept(a) && all_kept(b) {
        assert forall|k: int| 0 <= k < (a + b).len() implies #[trigger] (a + b)[k].kept by {
            if k < a.len() {
                assert((a + b)[k] == a[k]);
            } else {
                assert((a + b)[k] == b[k - a.len()]);
            }
        }
    }
}

/// Every call in two logs left the shape of its argument as it was if, and
/// only if, every call in each of them did.
pub proof fn lemma_shapes_kept_concat<R>(a: Seq<Call<R>>, b: Seq<Call<R>>)
    ensures
        shapes_kept(a + b) == (shapes_kept(a) && shapes_kept(b)),
{
    if shapes_kept(a + b) {
        assert forall|k: int| 0 <= k < a.len() implies #[trigger] a[k].before == a[k].after by {
            assert((a + b)[k] == a[k]);
        }
        assert forall|k: int| 0 <= k < b.len() implies #[trigger] b[k].before == b[k].after by {
            assert((a + b)[a.len() + k] == b[k]);
        }
    }
    if shapes_kept(a) && shapes_kept(b) {
        assert forall|k: int| 0 <= k < (a + b).len() implies #[trigger] (a + b)[k].before == (a
            + b)[k].after by {
            if k < a.len() {
                assert((a + b)[k] == a[k]);
            } else {
                assert((a + b)[k] == b[k - a.len()]);
            }
        }
    }
}

/// A value that the traversals of this library can walk through.
///
/// An implementation says which parts of the value are its children, in
/// which order, by its `shape` and by `map_one_mutation` and
/// `map_one_query`, and they must agree. An implementation outside verified
/// code keeps the default `shape`, a node without children; if it visits
/// children, the contracts below do not hold of it.
pub trait Term: Shaped + Sized + 'static {
    /// Runs the traversal [`Term::mutate_everything`] on each immediate
    /// child, left to right, and folds each child's result into `acc`.
    /// What the node holds itself, and its number of children, stay as
    /// they were.
    fn map_one_mutation<M: GenericMutate<R>, R, F: Fold<R>>(
        &mut self,
        m: &mut M,
        fold: &mut F,
        acc: R,
    ) -> (r: R)
        requires
            old(m).callable(),
            old(fold).callable(),
        ensures
            same_query(*final(m), *old(m)),
            *final(fold) == *old(fold),
            final(self).shape().label == old(self).shape().label,
            final(self).shape().children.len() == old(self).shape().children.len(),
            exists|vs: Seq<Visit<R>>|
                #![trigger calls_of(vs)]
                {
                    &&& traced_all(
                        possible(*old(m)),
                        *old(fold),
                        old(self).shape().children,
                        final(self).shape().children,
                        vs,
                    )
                    &&& folds_left(*old(fold), acc, totals(vs), r)
                    &&& final(m).log() == old(m).log() + calls_of(vs)
                    &&& all_kept(calls_of(vs)) ==> final(self).same_as(old(self))
                },
    ;

    /// Runs `m` on this value, then the traversal on each of its children,
    /// left to right, joining the results with `fold`: the query is called
    /// exactly once at every node of the value, in pre-order.
    fn mutate_everything<M: GenericMutate<R>, R, F: Fold<R>>(&mut self, m: &mut M, fold: &mut F) -> (r: R)
        requires
            old(m).callable(),
            old(fold).callable(),
        ensures
            same_query(*final(m), *old(m)),
            *final(fold) == *old(fold),
            exists|v: Visit<R>|
                #![trigger calls(v)]
                {
                    &&& traced(possible(*old(m)), *old(fold), final(self).shape(), v)
                    &&& v.before == old(self).shape()
                    &&& v.total == r
                    &&& final(m).log() == old(m).log() + calls(v)
                    &&& all_kept(calls(v)) ==> final(self).same_as(old(self))
                },
    {
        let ghost m0 = *m;
        let ghost f0 = *fold;
        let ghost before = *self;
        let r0 = m.mutate(self);
        let ghost m1 = *m;
        let ghost middle = *self;
        let r = self.map_one_mutation(m, fold, r0);
        proof {
            lemma_possible_same(m1, m0);
            let vs = choose|vs: Seq<Visit<R>>|
                {
                    &&& traced_all(possible(m1), f0, middle.shape().children, self.shape().children, vs)
                    &&& folds_left(f0, r0, totals(vs), r)
                    &&& m.log() == m1.log() + calls_of(vs)
                    &&& all_kept(calls_of(vs)) ==> self.same_as(&middle)
                };
            let v = Visit {
                result: r0,
                before: before.shape(),
                after: middle.shape(),
                kept: middle == before,
                kids: vs,
                total: r,
            };
            assert(calls(v) == seq![call_at(v)] + calls_of(vs));
            assert(m.log() =~= m0.log() + calls(v));
            assert forall|i: int| 0 <= i < v.kids.len() implies {
                &&& traced(possible(m0), f0, self.shape().children[i], #[trigger] v.kids[i])
                &&& v.kids[i].before == v.after.children[i]
            } by {
                assert(traced(possible(m1), f0, self.shape().children[i], vs[i]));
            }
            assert(traced(possible(m0), f0, self.shape(), v));
            lemma_all_kept_concat(seq![call_at(v)], calls_of(vs));
            if all_kept(calls(v)) {
                assert(seq![call_at(v)][0] == call_at(v));
                assert(seq![call_at(v)][0].kept);
            }
        }
        r
    }

    /// Runs the traversal [`Term::transform_everywhere`] on each immediate
    /// child, left to right, and gives back the value with the children it
    /// gave back. What the node holds itself, and its number of children,
    /// stay as they were.
    fn map_one_transform<G: GenericTransform>(self, g: &mut G) -> (r: Self)
        requires
            old(g).callable(),
        ensures
            same_transform(*final(g), *old(g)),
            r.shape().label == self.shape().label,
            r.shape().children.len() == self.shape().children.len(),
            exists|vs: Seq<Visit<()>>|
                #![trigger calls_up_of(vs)]
                {
                    &&& traced_up_all(possible_change(*old(g)), self.shape().children, r.shape().children, vs)
                    &&& final(g).log() == old(g).log() + calls_up_of(vs)
                    &&& all_kept(calls_up_of(vs)) ==> r.same_as(&self)
                },
    ;

    /// Runs the traversal on each of the children of this value, left to
    /// right, and then `g` on the value with the children it gave back:
    /// the transformation is called exactly once at every node, bottom-up.
    fn transform_everywhere<G: GenericTransform>(self, g: &mut G) -> (r: Self)
        requires
            old(g).callable(),
        ensures
            same_transform(*final(g), *old(g)),
            exists|v: Visit<()>|
                #![trigger calls_up(v)]
                {
                    &&& traced_up(possible_change(*old(g)), self.shape(), v)
                    &&& v.after == r.shape()
                    &&& final(g).log() == old(g).log() + calls_up(v)
                    &&& all_kept(calls_up(v)) ==> r.same_as(&self)
                },
    {
        let ghost g0 = *g;
        let ghost start = self;
        let mid = self.map_one_transform(g);
        let ghost g1 = *g;
        let ghost middle = mid;
        let r = g.transform(mid);
        proof {
            lemma_possible_change_same(g1, g0);
            let vs = choose|vs: Seq<Visit<()>>|
                {
                    &&& traced_up_all(possible_change(g0), start.shape().children, middle.shape().children, vs)
                    &&& g1.log() == g0.log() + calls_up_of(vs)
                    &&& all_kept(calls_up_of(vs)) ==> middle.same_as(&start)
                };
            let v = Visit {
                result: (),
                before: middle.shape(),
                after: r.shape(),
                kept: r == middle,
                kids: vs,
                total: (),
            };
            let top = seq![Call { result: (), before: v.before, after: v.after, kept: v.kept }];
            assert(calls_up(v) == calls_up_of(vs) + top);
            assert(g.log() =~= g0.log() + calls_up(v));
            assert forall|i: int| 0 <= i < v.kids.len() implies {
                &&& traced_up(possible_change(g0), start.shape().children[i], #[trigger] v.kids[i])
                &&& v.before.children[i] == v.kids[i].after
            } by {
                assert(traced_up(possible_change(g0), start.shape().children[i], vs[i]));
            }
            assert(traced_up(possible_change(g0), start.shape(), v));
            lemma_all_kept_concat(calls_up_of(vs), top);
            if all_kept(calls_up(v)) {
                assert(top[0].kept);
            }
        }
        r
    }

    /// Runs the traversal [`Term::query_everything`] on each immediate
    /// child, left to right, and folds each child's result into `acc`.
    fn map_one_query<Q: GenericQuery<R>, R, F: Fold<R>>(&self, q: &mut Q, fold: &mut F, acc: R) -> (r: R)
        requires
            old(q).callable(),
            old(fold).callable(),
        ensures
            same_queried(*final(q), *old(q)),
            *final(fold) == *old(fold),
            exists|vs: Seq<Visit<R>>|
                #![trigger calls_of(vs)]
                {
                    &&& traced_all(
                        possible_query(*old(q)),
                        *old(fold),
                        self.shape().children,
                        self.shape().children,
                        vs,
                    )
                    &&& folds_left(*old(fold), acc, totals(vs), r)
                    &&& final(q).log() == old(q).log() + calls_of(vs)
                    &&& shapes_kept(calls_of(vs))
                },
    ;

    /// Runs `q` on this value, then the traversal on each of its children,
    /// left to right, joining the results with `fold`: the query is called
    /// exactly once at every node of the value, in pre-order.
    fn query_everything<Q: GenericQuery<R>, R, F: Fold<R>>(&self, q: &mut Q, fold: &mut F) -> (r: R)
        requires
            old(q).callable(),
            old(fold).callable(),
        ensures
            same_queried(*final(q), *old(q)),
            *final(fold) == *old(fold),
            exists|v: Visit<R>|
                #![trigger calls(v)]
                {
                    &&& traced(possible_query(*old(q)), *old(fold), self.shape(), v)
                    &&& v.before == self.shape()
                    &&& v.total == r
                    &&& final(q).log() == old(q).log() + calls(v)
                    &&& shapes_kept(calls(v))
                },
    {
        let ghost q0 = *q;
        let ghost f0 = *fold;
        let r0 = q.query(self);
        let ghost q1 = *q;
        let r = self.map_one_query(q, fold, r0);
        proof {
            lemma_possible_query_same(q1, q0);
            let vs = choose|vs: Seq<Visit<R>>|
                {
                    &&& traced_all(possible_query(q1), f0, self.shape().children, self.shape().children, vs)
                    &&& folds_left(f0, r0, totals(vs), r)
                    &&& q.log() == q1.log() + calls_of(vs)
                    &&& shapes_kept(calls_of(vs))
                };
            let v = Visit {
                result: r0,
                before: self.shape(),
                after: self.shape(),
                kept: true,
                kids: vs,
                total: r,
            };
            assert(calls(v) == seq![call_at(v)] + calls_of(vs));
            assert(q.log() =~= q0.log() + calls(v));
            assert(traced(possible_query(q0), f0, self.shape(), v));
            lemma_shapes_kept_concat(seq![call_at(v)], calls_of(vs));
            assert(seq![call_at(v)][0] == call_at(v));
        }
        r
    }
}

/// The children of a value that has none, for a transformation: the value
/// is given back as it is.
pub fn no_children_up<T>(t: T) -> (r: T)
    ensures
        r == t,
        forall|p: spec_fn(Shape, Shape) -> bool, s: Seq<Shape>, e: Seq<Shape>|
            s.len() == 0 && e.len() == 0 ==> traced_up_all(p, s, e, Seq::<Visit<()>>::empty()),
        calls_up_of(Seq::<Visit<()>>::empty()) == Seq::<Call<()>>::empty(),
{
    t
}

/// The children of a value whose one child is `child`, for a
/// transformation: the traversal of `child`.
pub fn one_child_up<T: Term, G: GenericTransform>(child: T, g: &mut G) -> (r: T)
    requires
        old(g).callable(),
    ensures
        same_transform(*final(g), *old(g)),
        exists|vs: Seq<Visit<()>>|
            #![trigger calls_up_of(vs)]
            {
                &&& traced_up_all(possible_change(*old(g)), seq![child.shape()], seq![r.shape()], vs)
                &&& final(g).log() == old(g).log() + calls_up_of(vs)
                &&& all_kept(calls_up_of(vs)) ==> r.same_as(&child)
            },
{
    let ghost g0 = *g;
    let ghost start = child;
    let r = child.transform_everywhere(g);
    proof {
        let v = choose|v: Visit<()>|
            {
                &&& traced_up(possible_change(g0), start.shape(), v)
                &&& v.after == r.shape()
                &&& g.log() == g0.log() + calls_up(v)
                &&& all_kept(calls_up(v)) ==> r.same_as(&start)
            };
        let vs = seq![v];
        lemma_calls_up_of_push(Seq::empty(), v);
        assert(Seq::<Visit<()>>::empty().push(v) =~= vs);
        assert(calls_up_of(Seq::<Visit<()>>::empty()) =~= Seq::<Call<()>>::empty());
        assert(calls_up_of(vs) =~= calls_up(v));
        assert(traced_up_all(possible_change(g0), seq![start.shape()], seq![r.shape()], vs));
    }
    r
}

/// The children of a value that has none: the result is `acc`.
pub fn no_children<R, F: Fold<R>>(fold: &F, acc: R) -> (r: R)
    ensures
        r == acc,
        forall|p: spec_fn(R, Shape, Shape) -> bool, s: Seq<Shape>, e: Seq<Shape>|
            s.len() == 0 && e.len() == 0 ==> traced_all(p, *fold, s, e, Seq::<Visit<R>>::empty()),
        folds_left(*fold, acc, totals(Seq::<Visit<R>>::empty()), r),
        calls_of(Seq::<Visit<R>>::empty()) == Seq::<Call<R>>::empty(),
{
    proof {
        lemma_folds_left_empty(*fold, acc);
        assert(totals(Seq::<Visit<R>>::empty()) =~= Seq::<R>::empty());
    }
    acc
}

/// The children of a value whose one child is `child`: the traversal of
/// `child`, folded into `acc`.
pub fn one_child<T: Term, M: GenericMutate<R>, R, F: Fold<R>>(
    child: &mut T,
    m: &mut M,
    fold: &mut F,
    acc: R,
) -> (r: R)
    requires
        old(m).callable(),
        old(fold).callable(),
    ensures
        same_query(*final(m), *old(m)),
        *final(fold) == *old(fold),
        exists|vs: Seq<Visit<R>>|
            #![trigger calls_of(vs)]
            {
                &&& traced_all(
                    possible(*old(m)),
                    *old(fold),
                    seq![old(child).shape()],
                    seq![final(child).shape()],
                    vs,
                )
                &&& folds_left(*old(fold), acc, totals(vs), r)
                &&& final(m).log() == old(m).log() + calls_of(vs)
                &&& all_kept(calls_of(vs)) ==> final(child).same_as(old(child))
            },
{
    let ghost m0 = *m;
    let ghost f0 = *fold;
    let ghost before = *child;
    let rc = child.mutate_everything(m, fold);
    let r = fold.fold(acc, rc);
    proof {
        let v = choose|v: Visit<R>|
            {
                &&& traced(possible(m0), f0, child.shape(), v)
                &&& v.before == before.shape()
                &&& v.total == rc
                &&& m.log() == m0.log() + calls(v)
                &&& all_kept(calls(v)) ==> child.same_as(&before)
            };
        let vs = seq![v];
        lemma_calls_of_push(Seq::empty(), v);
        assert(Seq::<Visit<R>>::empty().push(v) =~= vs);
        assert(totals(Seq::<Visit<R>>::empty()) =~= Seq::<R>::empty());
        lemma_fold_trace_push(f0, acc, Seq::empty(), seq![acc], rc, r);
        assert(Seq::<R>::empty().push(rc) =~= totals(vs));
        assert(calls_of(Seq::<Visit<R>>::empty()) =~= Seq::<Call<R>>::empty());
        assert(calls_of(vs) =~= calls(v));
        assert(traced_all(possible(m0), f0, seq![before.shape()], seq![child.shape()], vs));
        assert(folds_left(f0, acc, totals(vs), r));
    }
    r
}

/// The children of a value whose one child is `child`, for a query: the
/// traversal of `child`, folded into `acc`.
pub fn query_one_child<T: Term, Q: GenericQuery<R>, R, F: Fold<R>>(
    child: &T,
    q: &mut Q,
    fold: &mut F,
    acc: R,
) -> (r: R)
    requires
        old(q).callable(),
        old(fold).callable(),
    ensures
        same_queried(*final(q), *old(q)),
        *final(fold) == *old(fold),
        exists|vs: Seq<Visit<R>>|
            #![trigger calls_of(vs)]
            {
                &&& traced_all(possible_query(*old(q)), *old(fold), seq![child.shape()], seq![child.shape()], vs)
                &&& folds_left(*old(fold), acc, totals(vs), r)
                &&& final(q).log() == old(q).log() + calls_of(vs)
                &&& shapes_kept(calls_of(vs))
            },
{
    let ghost q0 = *q;
    let ghost f0 = *fold;
    let rc = child.query_everything(q, fold);
    let r = fold.fold(acc, rc);
    proof {
        let v = choose|v: Visit<R>|
            {
                &&& traced(possible_query(q0), f0, child.shape(), v)
                &&& v.before == child.shape()
                &&& v.total == rc
                &&& q.log() == q0.log() + calls(v)
                &&& shapes_kept(calls(v))
            };
        let vs = seq![v];
        lemma_calls_of_push(Seq::empty(), v);
        assert(Seq::<Visit<R>>::empty().push(v) =~= vs);
        assert(totals(Seq::<Visit<R>>::empty()) =~= Seq::<R>::empty());
        lemma_fold_trace_push(f0, acc, Seq::empty(), seq![acc], rc, r);
        assert(Seq::<R>::empty().push(rc) =~= totals(vs));
        assert(calls_of(Seq::<Visit<R>>::empty()) =~= Seq::<Call<R>>::empty());
        assert(calls_of(vs) =~= calls(v));
        assert(traced_all(possible_query(q0), f0, seq![child.shape()], seq![child.shape()], vs));
        assert(folds_left(f0, acc, totals(vs), r));
    }
    r
}

impl Term for bool {
    fn map_one_transform<G: GenericTransform>(self, g: &mut G) -> (r: Self) {
        no_children_up(self)
    }

    fn map_one_mutation<M: GenericMutate<R>, R, F: Fold<R>>(
        &mut self,
        m: &mut M,
        fold: &mut F,
        acc: R,
    ) -> (r: R) {
        no_children(fold, acc)
    }

    fn map_one_query<Q: GenericQuery<R>, R, F: Fold<R>>(&self, q: &mut Q, fold: &mut F, acc: R) -> (r: R) {
        no_children(fold, acc)
    }
}

impl Term for char {
    fn map_one_transform<G: GenericTransform>(self, g: &mut G) -> (r: Self) {
        no_children_up(self)
    }

    fn map_one_mutation<M: GenericMutate<R>, R, F: Fold<R>>(
        &mut self,
        m: &mut M,
        fold: &mut F,
        acc: R,
    ) -> (r: R) {
        no_children(fold, acc)
    }

    fn map_one_query<Q: GenericQuery<R>, R, F: Fold<R>>(&self, q: &mut Q, fold: &mut F, acc: R) -> (r: R) {
        no_children(fold, acc)
    }
}

impl Term for u8 {
    fn map_one_transform<G: GenericTransform>(self, g: &mut G) -> (r: Self) {
        no_children_up(self)
    }

    fn map_one_mutation<M: GenericMutate<R>, R, F: Fold<R>>(
        &mut self,
        m: &mut M,
        fold: &mut F,
        acc: R,
    ) -> (r: R) {
        no_children(fold, acc)
    }

    fn map_one_query<Q: GenericQuery<R>, R, F: Fold<R>>(&self, q: &mut Q, fold: &mut F, acc: R) -> (r: R) {
        no_children(fold, acc)
    }
}

impl Term for u16 {
    fn map_one_transform<G: GenericTransform>(self, g: &mut G) -> (r: Self) {
        no_children_up(self)
    }

    fn map_one_mutation<M: GenericMutate<R>, R, F: Fold<R>>(
        &mut self,
        m: &mut M,
        fold: &mut F,
        acc: R,
    ) -> (r: R) {
        no_children(fold, acc)
    }

    fn map_one_query<Q: GenericQuery<R>, R, F: Fold<R>>(&self, q: &mut Q, fold: &mut F, acc: R) -> (r: R) {
        no_children(fold, acc)
    }
}

impl Term for u32 {
    fn map_one_transform<G: GenericTransform>(self, g: &mut G) -> (r: Self) {
        no_children_up(self)
    }

    fn map_one_mutation<M: GenericMutate<R>, R, F: Fold<R>>(
        &mut self,
        m: &mut M,
        fold: &mut F,
        acc: R,
    ) -> (r: R) {
        no_children(fold, acc)
    }

    fn map_one_query<Q: GenericQuery<R>, R, F: Fold<R>>(&self, q: &mut Q, fold: &mut F, acc: R) -> (r: R) {
        no_children(fold, acc)
    }
}

impl Term for u64 {
    fn map_one_transform<G: GenericTransform>(self, g: &mut G) -> (r: Self) {
        no_children_up(self)
    }

    fn map_one_mutation<M: GenericMutate<R>, R, F: Fold<R>>(
        &mut self,
        m: &mut M,
        fold: &mut F,
        acc: R,
    ) -> (r: R) {
        no_children(fold, acc)
    }

    fn map_one_query<Q: GenericQuery<R>, R, F: Fold<R>>(&self, q: &mut Q, fold: &mut F, acc: R) -> (r: R) {
        no_children(fold, acc)
    }
}

impl Term for usize {
    fn map_one_transform<G: GenericTransform>(self, g: &mut G) -> (r: Self) {
        no_children_up(self)
    }

    fn map_one_mutation<M: GenericMutate<R>, R, F: Fold<R>>(
        &mut self,
        m: &mut M,
        fold: &mut F,
        acc: R,
    ) -> (r: R) {
        no_children(fold, acc)
    }

    fn map_one_query<Q: GenericQuery<R>, R, F: Fold<R>>(&self, q: &mut Q, fold: &mut F, acc: R) -> (r: R) {
        no_children(fold, acc)
    }
}

impl Term for i8 {
    fn map_one_transform<G: GenericTransform>(self, g: &mut G) -> (r: Self) {
        no_children_up(self)
    }

    fn map_one_mutation<M: GenericMutate<R>, R, F: Fold<R>>(
        &mut self,
        m: &mut M,
        fold: &mut F,
        acc: R,
    ) -> (r: R) {
        no_children(fold, acc)
    }

    fn map_one_query<Q: GenericQuery<R>, R, F: Fold<R>>(&self, q: &mut Q, fold: &mut F, acc: R) -> (r: R) {
        no_children(fold, acc)
    }
}

impl Term for i16 {
    fn map_one_transform<G: GenericTransform>(self, g: &mut G) -> (r: Self) {
        no_children_up(self)
    }

    fn map_one_mutation<M: GenericMutate<R>, R, F: Fold<R>>(
        &mut self,
        m: &mut M,
        fold: &mut F,
        acc: R,
    ) -> (r: R) {
        no_children(fold, acc)
    }

    fn map_one_query<Q: GenericQuery<R>, R, F: Fold<R>>(&self, q: &mut Q, fold: &mut F, acc: R) -> (r: R) {
        no_children(fold, acc)
    }
}

impl Term for i32 {
    fn map_one_transform<G: GenericTransform>(self, g: &mut G) -> (r: Self) {
        no_children_up(self)
    }

    fn map_one_mutation<M: GenericMutate<R>, R, F: Fold<R>>(
        &mut self,
        m: &mut M,
        fold: &mut F,
        acc: R,
    ) -> (r: R) {
        no_children(fold, acc)
    }

    fn map_one_query<Q: GenericQuery<R>, R, F: Fold<R>>(&self, q: &mut Q, fold: &mut F, acc: R) -> (r: R) {
        no_children(fold, acc)
    }
}

impl Term for i64 {
    fn map_one_transform<G: GenericTransform>(self, g: &mut G) -> (r: Self) {
        no_children_up(self)
    }

    fn map_one_mutation<M: GenericMutate<R>, R, F: Fold<R>>(
        &mut self,
        m: &mut M,
        fold: &mut F,
        acc: R,
    ) -> (r: R) {
        no_children(fold, acc)
    }

    fn map_one_query<Q: GenericQuery<R>, R, F: Fold<R>>(&self, q: &mut Q, fold: &mut F, acc: R) -> (r: R) {
        no_children(fold, acc)
    }
}

impl Term for isize {
    fn map_one_transform<G: GenericTransform>(self, g: &mut G) -> (r: Self) {
        no_children_up(self)
    }

    fn map_one_mutation<M: GenericMutate<R>, R, F: Fold<R>>(
        &mut self,
        m: &mut M,
        fold: &mut F,
        acc: R,
    ) -> (r: R) {
        no_children(fold, acc)
    }

    fn map_one_query<Q: GenericQuery<R>, R, F: Fold<R>>(&self, q: &mut Q, fold: &mut F, acc: R) -> (r: R) {
        no_children(fold, acc)
    }
}

impl Term for &'static str {
    fn map_one_transform<G: GenericTransform>(self, g: &mut G) -> (r: Self) {
        no_children_up(self)
    }

    fn map_one_mutation<M: GenericMutate<R>, R, F: Fold<R>>(
        &mut self,
        m: &mut M,
        fold: &mut F,
        acc: R,
    ) -> (r: R) {
        no_children(fold, acc)
    }

    fn map_one_query<Q: GenericQuery<R>, R, F: Fold<R>>(&self, q: &mut Q, fold: &mut F, acc: R) -> (r: R) {
        no_children(fold, acc)
    }
}

impl Term for String {
    fn map_one_transform<G: GenericTransform>(self, g: &mut G) -> (r: Self) {
        no_children_up(self)
    }

    fn map_one_mutation<M: GenericMutate<R>, R, F: Fold<R>>(
        &mut self,
        m: &mut M,
        fold: &mut F,
        acc: R,
    ) -> (r: R) {
        no_children(fold, acc)
    }

    fn map_one_query<Q: GenericQuery<R>, R, F: Fold<R>>(&self, q: &mut Q, fold: &mut F, acc: R) -> (r: R) {
        no_children(fold, acc)
    }
}

impl<T: Term> Term for Box<T> {
    fn map_one_transform<G: GenericTransform>(self, g: &mut G) -> (r: Self) {
        let inner = *self;
        Box::new(one_child_up(inner, g))
    }

    fn map_one_mutation<M: GenericMutate<R>, R, F: Fold<R>>(
        &mut self,
        m: &mut M,
        fold: &mut F,
        acc: R,
    ) -> (r: R) {
        one_child(&mut **self, m, fold, acc)
    }

    fn map_one_query<Q: GenericQuery<R>, R, F: Fold<R>>(&self, q: &mut Q, fold: &mut F, acc: R) -> (r: R) {
        query_one_child(&**self, q, fold, acc)
    }
}

impl<T: Term> Term for Option<T> {
    fn map_one_transform<G: GenericTransform>(self, g: &mut G) -> (r: Self) {
        match self {
            Some(x) => Some(one_child_up(x, g)),
            None => no_children_up(None),
        }
    }

    fn map_one_mutation<M: GenericMutate<R>, R, F: Fold<R>>(
        &mut self,
        m: &mut M,
        fold: &mut F,
        acc: R,
    ) -> (r: R) {
        match self {
            Some(x) => one_child(x, m, fold, acc),
            None => no_children(fold, acc),
        }
    }

    fn map_one_query<Q: GenericQuery<R>, R, F: Fold<R>>(&self, q: &mut Q, fold: &mut F, acc: R) -> (r: R) {
        match self {
            Some(x) => query_one_child(x, q, fold, acc),
            None => no_children(fold, acc),
        }
    }
}

impl<T: Term> Term for Vec<T> {
    fn map_one_transform<G: GenericTransform>(self, g: &mut G) -> (r: Self) {
        let ghost g0 = *g;
        let ghost start = self@;
        let ghost whole = self;
        let mut items = self;
        let n = items.len();
        let mut rev: Vec<T> = Vec::new();
        while items.len() > 0
            invariant
                n == start.len(),
                items@.len() <= n,
                items@ == start.subrange(0, items@.len() as int),
                items@.len() + rev@.len() == n,
                forall|j: int| 0 <= j < rev@.len() ==> #[trigger] rev@[j] == start[n - 1 - j],
            decreases items@.len(),
        {
            let x = items.pop().unwrap();
            rev.push(x);
        }
        let mut out: Vec<T> = Vec::new();
        let ghost mut vs = Seq::<Visit<()>>::empty();
        while rev.len() > 0
            invariant
                n == start.len(),
                out@.len() + rev@.len() == n,
                forall|j: int| 0 <= j < rev@.len() ==> #[trigger] rev@[j] == start[n - 1 - j],
                same_transform(*g, g0),
                g0.callable(),
                vs.len() == out@.len(),
                forall|j: int|
                    0 <= j < out@.len() ==> {
                        &&& traced_up(possible_change(g0), start[j].shape(), #[trigger] vs[j])
                        &&& vs[j].after == out@[j].shape()
                    },
                g.log() == g0.log() + calls_up_of(vs),
                all_kept(calls_up_of(vs)) ==> forall|j: int|
                    0 <= j < out@.len() ==> #[trigger] out@[j].same_as(&start[j]),
            decreases rev@.len(),
        {
            let ghost i = out@.len() as int;
            let ghost g_before = *g;
            let x = rev.pop().unwrap();
            assert(x == start[i]);
            let y = x.transform_everywhere(g);
            proof {
                lemma_possible_change_same(g_before, g0);
                let v = choose|v: Visit<()>|
                    {
                        &&& traced_up(possible_change(g_before), start[i].shape(), v)
                        &&& v.after == y.shape()
                        &&& g.log() == g_before.log() + calls_up(v)
                        &&& all_kept(calls_up(v)) ==> y.same_as(&start[i])
                    };
                let vs_old = vs;
                lemma_calls_up_of_push(vs_old, v);
                lemma_all_kept_concat(calls_up_of(vs_old), calls_up(v));
                vs = vs_old.push(v);
                assert(g.log() =~= g0.log() + calls_up_of(vs));
            }
            out.push(y);
        }
        proof {
            let kids = out.shape().children;
            let starts = whole.shape().children;
            assert forall|j: int| 0 <= j < vs.len() implies {
                &&& traced_up(possible_change(g0), starts[j], #[trigger] vs[j])
                &&& vs[j].after == kids[j]
            } by {
                assert(kids[j] == out@[j].shape());
                assert(starts[j] == start[j].shape());
            }
            assert(traced_up_all(possible_change(g0), starts, kids, vs));
        }
        out
    }

    fn map_one_mutation<M: GenericMutate<R>, R, F: Fold<R>>(
        &mut self,
        m: &mut M,
        fold: &mut F,
        acc: R,
    ) -> (r: R) {
        let ghost m0 = *m;
        let ghost f0 = *fold;
        let ghost acc0 = acc;
        let ghost start = self@;
        let ghost mut vs = Seq::<Visit<R>>::empty();
        let ghost mut accs = seq![acc];
        let mut acc = acc;
        let mut i: usize = 0;
        let n = self.len();
        proof {
            lemma_folds_left_empty(f0, acc0);
        }
        while i < n
            invariant
                n == self.len(),
                n == start.len(),
                0 <= i <= n,
                same_query(*m, m0),
                *fold == f0,
                m0.callable(),
                f0.callable(),
                vs.len() == i,
                forall|j: int|
                    0 <= j < i ==> {
                        &&& traced(possible(m0), f0, self@[j].shape(), #[trigger] vs[j])
                        &&& vs[j].before == start[j].shape()
                    },
                fold_trace(f0, acc0, totals(vs), accs),
                accs.last() == acc,
                m.log() == m0.log() + calls_of(vs),
                forall|j: int| i <= j < n ==> #[trigger] self@[j] == start[j],
                all_kept(calls_of(vs)) ==> forall|j: int|
                    0 <= j < i ==> #[trigger] self@[j].same_as(&start[j]),
            decreases n - i,
        {
            let ghost m_before = *m;
            let ghost elem_before = self@[i as int];
            let ri = self[i].mutate_everything(m, fold);
            let next = fold.fold(acc, ri);
            proof {
                lemma_possible_same(m_before, m0);
                let v = choose|v: Visit<R>|
                    {
                        &&& traced(possible(m_before), f0, self@[i as int].shape(), v)
                        &&& v.before == elem_before.shape()
                        &&& v.total == ri
                        &&& m.log() == m_before.log() + calls(v)
                        &&& all_kept(calls(v)) ==> self@[i as int].same_as(&elem_before)
                    };
                lemma_all_kept_concat(calls_of(vs), calls(v));
                let vs_old = vs;
                lemma_calls_of_push(vs_old, v);
                lemma_fold_trace_push(f0, acc0, totals(vs_old), accs, ri, next);
                vs = vs_old.push(v);
                accs = accs.push(next);
                assert(m.log() =~= m0.log() + calls_of(vs));
            }
            acc = next;
            i += 1;
        }
        proof {
            let kids = self.shape().children;
            let starts = Seq::new(start.len(), |k: int| start[k].shape());
            assert(old(self).shape().children == starts);
            assert forall|j: int| 0 <= j < vs.len() implies {
                &&& traced(possible(m0), f0, kids[j], #[trigger] vs[j])
                &&& vs[j].before == starts[j]
            } by {
                assert(kids[j] == self@[j].shape());
            }
            assert(traced_all(possible(m0), f0, starts, kids, vs));
            assert(folds_left(f0, acc0, totals(vs), acc));

        }
        acc
    }

    fn map_one_query<Q: GenericQuery<R>, R, F: Fold<R>>(&self, q: &mut Q, fold: &mut F, acc: R) -> (r: R) {
        let ghost q0 = *q;
        let ghost f0 = *fold;
        let ghost acc0 = acc;
        let ghost mut vs = Seq::<Visit<R>>::empty();
        let ghost mut accs = seq![acc];
        let mut acc = acc;
        let mut i: usize = 0;
        let n = self.len();
        proof {
            lemma_folds_left_empty(f0, acc0);
        }
        while i < n
            invariant
                n == self.len(),
                0 <= i <= n,
                same_queried(*q, q0),
                *fold == f0,
                q0.callable(),
                f0.callable(),
                vs.len() == i,
                forall|j: int|
                    0 <= j < i ==> {
                        &&& traced(possible_query(q0), f0, self@[j].shape(), #[trigger] vs[j])
                        &&& vs[j].before == self@[j].shape()
                    },
                fold_trace(f0, acc0, totals(vs), accs),
                accs.last() == acc,
                q.log() == q0.log() + calls_of(vs),
                shapes_kept(calls_of(vs)),
            decreases n - i,
        {
            let ghost q_before = *q;
            let ri = self[i].query_everything(q, fold);
            let next = fold.fold(acc, ri);
            proof {
                lemma_possible_query_same(q_before, q0);
                let v = choose|v: Visit<R>|
                    {
                        &&& traced(possible_query(q_before), f0, self@[i as int].shape(), v)
                        &&& v.before == self@[i as int].shape()
                        &&& v.total == ri
                        &&& q.log() == q_before.log() + calls(v)
                        &&& shapes_kept(calls(v))
                    };
                let vs_old = vs;
                lemma_calls_of_push(vs_old, v);
                lemma_fold_trace_push(f0, acc0, totals(vs_old), accs, ri, next);
                lemma_shapes_kept_concat(calls_of(vs_old), calls(v));
                vs = vs_old.push(v);
                accs = accs.push(next);
                assert(q.log() =~= q0.log() + calls_of(vs));
            }
            acc = next;
            i += 1;
        }
        proof {
            let kids = self.shape().children;
            assert forall|j: int| 0 <= j < vs.len() implies {
                &&& traced(possible_query(q0), f0, kids[j], #[trigger] vs[j])
                &&& vs[j].before == kids[j]
            } by {
                assert(kids[j] == self@[j].shape());
            }
            assert(traced_all(possible_query(q0), f0, kids, kids, vs));
            assert(folds_left(f0, acc0, totals(vs), acc));
        }
        acc
    }
}

} // verus!
