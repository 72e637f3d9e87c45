//! Transformations that can be called on values of any type, and the
//! traversal that applies one everywhere in a data structure, bottom-up.
use crate::mutation::cast_mut;
use crate::shape::{Call, Label, Shape, Shaped};
use crate::laws::lemma_calls_follow_postorder;
use crate::term::{all_kept, befores, shapes_kept, Term, Visit};
use core::marker::PhantomData;
use vstd::prelude::*;

verus! {

/// A transformation that can be called on a value of any type, taking the
/// value and giving back one of the same type.
///
/// This is roughly equivalent to `for<T> Fn(T) -> T`. A transformation
/// keeps, as ghost state, a record of the calls made of it so far (`log`):
/// for each call, the shape of the value it took and of the one it gave
/// back, and whether it gave back the value it took.
pub trait GenericTransform: Sized {
    /// The underlying function may turn a value of shape `before`, which it
    /// was written for, into one of shape `after`.
    spec fn applied(&self, before: Shape, after: Shape) -> bool;

    /// The transformation may be called on any value.
    spec fn callable(&self) -> bool;

    /// The calls made so far, in order.
    spec fn log(&self) -> Seq<Call<()>>;

    /// Calls the transformation on `t`: either the underlying function
    /// turned a value of `t`'s shape into one of the result's shape, or
    /// the result is `t` itself. The call is added to the log; the
    /// transformation is otherwise unchanged.
    fn transform<T: Shaped + 'static>(&mut self, t: T) -> (r: T)
        requires
            old(self).callable(),
        ensures
            forall|b: Shape, a: Shape| #[trigger] final(self).applied(b, a) == old(self).applied(b, a),
            final(self).callable() == old(self).callable(),
            final(self).log() == old(self).log().push(Call { result: (), before: t.shape(), after: r.shape(), kept: r == t }),
            old(self).applied(t.shape(), r.shape()) || r == t,
    ;
}

/// `a` and `b` are the same transformation, whatever their logs.
pub open spec fn same_transform<G: GenericTransform>(a: G, b: G) -> bool {
    &&& forall|x: Shape, y: Shape| #[trigger] a.applied(x, y) == b.applied(x, y)
    &&& a.callable() == b.callable()
}

/// What one call of `g` may do to the shape of a value: what the underlying
/// function does, or nothing.
pub open spec fn possible_change<G: GenericTransform>(g: G) -> spec_fn(Shape, Shape) -> bool {
    |before: Shape, after: Shape| g.applied(before, after) || before == after
}

/// Two transformations that are the same may change shapes alike.
pub proof fn lemma_possible_change_same<G: GenericTransform>(a: G, b: G)
    requires
        same_transform(a, b),
    ensures
        possible_change(a) == possible_change(b),
{
    assert(possible_change(a) =~= possible_change(b));
}

/// The calls of a transformation made by a bottom-up traversal, in the
/// order in which they were made: inside each child in turn, then at the
/// node.
pub open spec fn calls_up(v: Visit<()>) -> Seq<Call<()>>
    decreases v,
{
    calls_up_of(v.kids) + seq![Call { result: (), before: v.before, after: v.after, kept: v.kept }]
}

/// The calls made by the bottom-up traversals `vs`, one after the other.
pub open spec fn calls_up_of(vs: Seq<Visit<()>>) -> Seq<Call<()>>
    decreases vs,
{
    if vs.len() == 0 {
        Seq::empty()
    } else {
        calls_up_of(vs.subrange(0, vs.len() - 1)) + calls_up(vs[vs.len() - 1])
    }
}

/// `v` is a bottom-up traversal of a value that had shape `start`: one
/// traversal of each child, in order, each from that child as it was; then
/// one call at the node, on the node with the children as they were left,
/// which changed its shape as `possible` allows. `v.after` is the shape
/// that the traversal left.
pub open spec fn traced_up(possible: spec_fn(Shape, Shape) -> bool, start: Shape, v: Visit<()>) -> bool
    decreases start,
{
    &&& v.kids.len() == start.children.len()
    &&& v.before.label == start.label
    &&& v.before.children.len() == start.children.len()
    &&& forall|i: int|
        0 <= i < v.kids.len() ==> {
            &&& traced_up(possible, start.children[i], #[trigger] v.kids[i])
            &&& v.before.children[i] == v.kids[i].after
        }
    &&& possible(v.before, v.after)
}

/// `vs` are bottom-up traversals of children, one for one: the `i`-th
/// started from the shape `starts[i]` and left the shape `ends[i]`.
pub open spec fn traced_up_all(
    possible: spec_fn(Shape, Shape) -> bool,
    starts: Seq<Shape>,
    ends: Seq<Shape>,
    vs: Seq<Visit<()>>,
) -> bool {
    &&& vs.len() == starts.len()
    &&& vs.len() == ends.len()
    &&& forall|i: int|
        0 <= i < vs.len() ==> {
            &&& traced_up(possible, starts[i], #[trigger] vs[i])
            &&& vs[i].after == ends[i]
        }
}

/// The nodes of a value of shape `s`, in post-order: the nodes of each
/// child in turn, then the value itself.
pub open spec fn postorder(s: Shape) -> Seq<Shape>
    decreases s,
{
    postorder_of(s.children) + seq![s]
}

/// The nodes of values of shapes `ss` in post-order, one value after the
/// other.
pub open spec fn postorder_of(ss: Seq<Shape>) -> Seq<Shape>
    decreases ss,
{
    if ss.len() == 0 {
        Seq::empty()
    } else {
        postorder_of(ss.subrange(0, ss.len() - 1)) + postorder(ss[ss.len() - 1])
    }
}

/// The calls of bottom-up traversals, one more traversal added at the end.
pub proof fn lemma_calls_up_of_push(vs: Seq<Visit<()>>, v: Visit<()>)
    ensures
        calls_up_of(vs.push(v)) == calls_up_of(vs) + calls_up(v),
{
    assert(vs.push(v).subrange(0, vs.len() as int) =~= vs);
}

/// `f` may be called on any `U`.
pub open spec fn transform_callable<F: Fn(U) -> U, U>(f: F) -> bool {
    forall|u: U| call_requires(f, (u,))
}

/// `f` may turn some `U` of shape `before` into one of shape `after`.
pub open spec fn transform_gives<F: Fn(U) -> U, U: Shaped>(f: F, before: Shape, after: Shape) -> bool {
    exists|u: U, w: U| #[trigger] call_ensures(f, (u,), w) && u.shape() == before && w.shape() == after
}

/// A transformation creates a new `U` from a `U`. It can be called on
/// values of any type `T`, not just on values of type `U`: a value that is
/// not a `U` is given back as it is.
///
/// This lifts an `Fn(U) -> U` into a `for<T> Fn(T) -> T`.
#[verifier::reject_recursive_types(U)]
pub struct Transformation<F, U> where F: Fn(U) -> U {
    f: F,
    calls: Ghost<Seq<Call<()>>>,
    phantom: PhantomData<U>,
}

impl<F, U> Transformation<F, U> where F: Fn(U) -> U {
    /// The function that the transformation lifts.
    pub closed spec fn lifted(&self) -> F {
        self.f
    }

    /// The calls made so far, in order.
    pub closed spec fn calls(&self) -> Seq<Call<()>> {
        self.calls@
    }
}

impl<F, U: Shaped + 'static> Transformation<F, U> where F: Fn(U) -> U {
    /// Construct a new `Transformation`, which gives back the value it was
    /// called on where that value is not a `U`.
    pub fn new(f: F) -> (r: Transformation<F, U>)
        requires
            transform_callable(f),
        ensures
            r.lifted() == f,
            r.calls() == Seq::<Call<()>>::empty(),
            GenericTransform::callable(&r),
    {
        Transformation { f, calls: Ghost(Seq::empty()), phantom: PhantomData }
    }

    /// Calls the lifted function on `t` if `t` is a `U`, and gives `t`
    /// back otherwise.
    fn run<T: Shaped + 'static>(&mut self, t: T) -> (r: T)
        requires
            transform_callable(old(self).lifted()),
        ensures
            final(self).lifted() == old(self).lifted(),
            final(self).calls() == old(self).calls().push(Call { result: (), before: t.shape(), after: r.shape(), kept: r == t }),
            transform_gives(old(self).lifted(), t.shape(), r.shape()) || r == t,
    {
        let ghost start = t;
        let ghost mut changed = false;
        let ghost mut after = start.shape();
        let mut slot: Option<T> = Some(t);
        // `slot` can be seen as an `Option<U>` exactly when `T` is `U`.
        match cast_mut::<Option<T>, Option<U>>(&mut slot) {
            Some(u_slot) => {
                let taken = u_slot.take();
                match taken {
                    Some(u) => {
                        assert(u.shape() == start.shape()) by {
                            assert(seq![u.shape()][0] == seq![start.shape()][0]);
                        }
                        let w = (self.f)(u);
                        proof {
                            changed = true;
                            after = w.shape();
                            assert(transform_gives(self.lifted(), start.shape(), after));
                        }
                        *u_slot = Some(w);
                    },
                    None => {
                        assert(false);
                    },
                }
            },
            None => {},
        }
        proof {
            if changed {
                assert(slot.shape().label == Label::Variant(1));
            }
        }
        let r = slot.unwrap();
        proof {
            if changed {
                assert(r.shape() == after) by {
                    assert(seq![r.shape()][0] == seq![after][0]);
                }
            }
            self.calls@ = self.calls@.push(Call { result: (), before: start.shape(), after: r.shape(), kept: r == start });
        }
        r
    }

    /// Calls the transformation on `t`: either the lifted function turned a
    /// value of `t`'s shape into one of the result's shape, or the result
    /// is `t` itself. So a value whose shape no `U` has comes back as it
    /// was.
    pub fn transform<T: Shaped + 'static>(&mut self, t: T) -> (r: T)
        requires
            GenericTransform::callable(old(self)),
        ensures
            final(self).lifted() == old(self).lifted(),
            final(self).calls() == old(self).calls().push(Call { result: (), before: t.shape(), after: r.shape(), kept: r == t }),
            GenericTransform::callable(final(self)),
            transform_gives(old(self).lifted(), t.shape(), r.shape()) || r == t,
    {
        self.run(t)
    }
}

impl<F, U: Shaped + 'static> GenericTransform for Transformation<F, U> where F: Fn(U) -> U {
    open spec fn applied(&self, before: Shape, after: Shape) -> bool {
        transform_gives(self.lifted(), before, after)
    }

    open spec fn callable(&self) -> bool {
        transform_callable(self.lifted())
    }

    open spec fn log(&self) -> Seq<Call<()>> {
        self.calls()
    }

    fn transform<T: Shaped + 'static>(&mut self, t: T) -> (r: T) {
        self.run(t)
    }
}

/// Recursively perform a transformation in a bottom-up manner across a data
/// structure: the children of a value are transformed, left to right,
/// before the value itself.
pub struct Everywhere<G> where G: GenericTransform {
    g: G,
}

impl<G> Everywhere<G> where G: GenericTransform {
    /// The transformation run at each value.
    pub closed spec fn inner(&self) -> G {
        self.g
    }

    /// The transformation may be called on anything.
    pub open spec fn callable(&self) -> bool {
        self.inner().callable()
    }

    /// Construct a new `Everywhere` transformation traversal.
    pub fn new(g: G) -> (r: Everywhere<G>)
        requires
            g.callable(),
        ensures
            r.inner() == g,
            r.callable(),
    {
        Everywhere { g }
    }

    /// Transforms each of the children of `t`, left to right, everywhere
    /// inside them, and then `t` itself with the children that came back:
    /// the transformation is called exactly once at every node of `t`,
    /// bottom-up, each node as the calls inside it left it. Where no call
    /// changed its value, the result holds what `t` held; where no call
    /// changed the shape of its value, the calls were made on the nodes of
    /// `t` in post-order.
    pub fn transform<T: Term>(&mut self, t: T) -> (r: T)
        requires
            old(self).callable(),
        ensures
            same_transform(final(self).inner(), old(self).inner()),
            final(self).callable(),
            exists|v: Visit<()>|
                #![trigger calls_up(v)]
                {
                    &&& traced_up(possible_change(old(self).inner()), t.shape(), v)
                    &&& v.after == r.shape()
                    &&& final(self).inner().log() == old(self).inner().log() + calls_up(v)
                    &&& all_kept(calls_up(v)) ==> r.same_as(&t)
                    &&& shapes_kept(calls_up(v)) ==> befores(calls_up(v)) == postorder(t.shape())
                },
    {
        let ghost g0 = self.g;
        let ghost start = t;
        let r = t.transform_everywhere(&mut self.g);
        proof {
            let v = choose|v: Visit<()>|
                {
                    &&& traced_up(possible_change(g0), start.shape(), v)
                    &&& v.after == r.shape()
                    &&& self.g.log() == g0.log() + calls_up(v)
                    &&& all_kept(calls_up(v)) ==> r.same_as(&start)
                };
            if shapes_kept(calls_up(v)) {
                lemma_calls_follow_postorder(possible_change(g0), start.shape(), v);
            }
        }
        r
    }
}

} // verus!
