//! Mutations that can be called on values of any type, and the traversal
//! that applies one everywhere in a data structure.
use crate::fold::{DiscardResults, Fold};
use crate::shape::{Call, Shape, Shaped};
use crate::laws::lemma_calls_follow_preorder;
use crate::term::{all_kept, befores, calls, possible, preorder, shapes_kept, traced, Term, Visit};
use core::marker::PhantomData;
use vstd::prelude::*;

verus! {

/// Views `t` as a value of type `U`.
///
/// Calls `<dyn core::any::Any>::downcast_mut::<U>` on `t`. That function
/// gives back `Some` of the same reference exactly when `T` is `U`, and
/// `None` otherwise. The contract states what holds either way: with
/// `None`, `t` keeps its value; with `Some(u)`, `u` is `t` seen as a `U`,
/// so it has `t`'s shape before and after, and `t` keeps its value if `u`
/// keeps its own. Left unsaid, because no contract here can say that two
/// type parameters are one type: when `Some` comes back.
#[verifier::external_body]
pub(crate) fn cast_mut<T: Shaped + 'static, U: Shaped + 'static>(t: &mut T) -> (r: Option<&mut U>)
    ensures
        r is None ==> *final(t) == *old(t),
        r matches Some(u) ==> {
            &&& u.shape() == old(t).shape()
            &&& final(u).shape() == final(t).shape()
            &&& (*final(u) == *u ==> *final(t) == *old(t))
        },
{
    let any: &mut dyn core::any::Any = t;
    any.downcast_mut::<U>()
}

/// A mutating query that can be called on a value of any type, giving a
/// result of type `R`.
///
/// This is roughly equivalent to `for<T> Fn(&mut T) -> R`. A query keeps,
/// as ghost state, a record of the calls made of it so far (`log`): for
/// each call, its result, the shape of its argument before and after, and
/// whether it left its argument as it was.
pub trait GenericMutate<R>: Sized {
    /// `r` is a result of the underlying function, applied to a value of
    /// shape `before` that it was written for.
    spec fn applied(&self, r: R, before: Shape) -> bool;

    /// `r` is the result given for a value that the underlying function was
    /// not written for.
    spec fn defaulted(&self, r: R) -> bool;

    /// The query may be called on any value.
    spec fn callable(&self) -> bool;

    /// The calls made so far, in order.
    spec fn log(&self) -> Seq<Call<R>>;

    /// Calls the query on `t`: either the result is one that the underlying
    /// function gives on a value of `t`'s shape, or it is a default result
    /// and `t` keeps its value.
    /// The call is added to the log, with whether it left `t` as it was;
    /// the query is otherwise unchanged.
    fn mutate<T: Shaped + 'static>(&mut self, t: &mut T) -> (r: R)
        requires
            old(self).callable(),
        ensures
            forall|x: R, s: Shape| #[trigger] final(self).applied(x, s) == old(self).applied(x, s),
            forall|x: R| #[trigger] final(self).defaulted(x) == old(self).defaulted(x),
            final(self).callable() == old(self).callable(),
            final(self).log() == old(self).log().push(Call { result: r, before: old(t).shape(), after: final(t).shape(), kept: *final(t) == *old(t) }),
            old(self).applied(r, old(t).shape()) || (old(self).defaulted(r) && *final(t) == *old(t)),
    ;
}

/// `a` and `b` are the same query, whatever their logs.
pub open spec fn same_query<R, M: GenericMutate<R>>(a: M, b: M) -> bool {
    &&& forall|x: R, s: Shape| #[trigger] a.applied(x, s) == b.applied(x, s)
    &&& forall|x: R| #[trigger] a.defaulted(x) == b.defaulted(x)
    &&& a.callable() == b.callable()
}

/// Makes the result of a mutation for values that it was not written for.
///
/// It is implemented for every closure `Fn() -> R` and for [`UseDefault`].
pub trait MakeDefault<R>: Sized {
    /// `r` is a result that `make_default` may give.
    spec fn makes(&self, r: R) -> bool;

    /// `make_default` may be called.
    spec fn callable(&self) -> bool;

    /// Makes a default result.
    fn make_default(&mut self) -> (r: R)
        requires
            old(self).callable(),
        ensures
            *final(self) == *old(self),
            old(self).makes(r),
    ;
}

/// Makes `R::default()`.
pub struct UseDefault;

impl<R: Default> MakeDefault<R> for UseDefault {
    open spec fn makes(&self, r: R) -> bool {
        call_ensures(R::default, (), r)
    }

    open spec fn callable(&self) -> bool {
        true
    }

    fn make_default(&mut self) -> (r: R) {
        R::default()
    }
}

impl<R, D: Fn() -> R> MakeDefault<R> for D {
    open spec fn makes(&self, r: R) -> bool {
        call_ensures(*self, (), r)
    }

    open spec fn callable(&self) -> bool {
        call_requires(*self, ())
    }

    fn make_default(&mut self) -> (r: R) {
        broadcast use vstd::function::group_function_axioms;

        (self)()
    }
}

/// A mutation creates some value `R` from mutable references to a `U`. It can
/// be called on values of any type `T`, not just on values of type `U`, so it
/// needs a default `R` value for when it is called on values which are not a
/// `U`.
///
/// This lifts an `Fn(&mut U) -> R` into a `for<T> Fn(&mut T) -> R`.
#[verifier::reject_recursive_types(U)]
#[verifier::reject_recursive_types(R)]
pub struct Mutation<M, U, D, R> where M: Fn(&mut U) -> R, D: MakeDefault<R> {
    make_default: D,
    mutation: M,
    calls: Ghost<Seq<Call<R>>>,
    phantom: PhantomData<(U, R)>,
}

/// `r` is a result that `f` gives when it is called on some `&mut U` of
/// shape `before`.
pub open spec fn lifted_gives<M: Fn(&mut U) -> R, U: Shaped, R>(f: M, r: R, before: Shape) -> bool {
    exists|u: &mut U| #[trigger] call_ensures(f, (u,), r) && u.shape() == before
}

/// `f` may be called on any `&mut U`.
pub open spec fn lifted_callable<M: Fn(&mut U) -> R, U, R>(f: M) -> bool {
    forall|u: &mut U| call_requires(f, (u,))
}

impl<M, U, D, R> Mutation<M, U, D, R> where M: Fn(&mut U) -> R, D: MakeDefault<R> {
    /// The function that the mutation lifts.
    pub closed spec fn lifted(&self) -> M {
        self.mutation
    }

    /// What makes the result for values that are not a `U`.
    pub closed spec fn fallback(&self) -> D {
        self.make_default
    }

    /// The calls made so far, in order.
    pub closed spec fn calls(&self) -> Seq<Call<R>> {
        self.calls@
    }
}

impl<M, U: Shaped + 'static, D, R> Mutation<M, U, D, R> where M: Fn(&mut U) -> R, D: MakeDefault<R> {
    /// Calls the lifted function on `t` if `t` is a `U`, and makes the
    /// default result otherwise.
    fn run<T: Shaped + 'static>(&mut self, t: &mut T) -> (r: R)
        requires
            lifted_callable(old(self).lifted()),
            old(self).fallback().callable(),
        ensures
            final(self).lifted() == old(self).lifted(),
            final(self).fallback() == old(self).fallback(),
            final(self).calls() == old(self).calls().push(Call { result: r, before: old(t).shape(), after: final(t).shape(), kept: *final(t) == *old(t) }),
            (exists|u: &mut U|
                #[trigger] call_ensures(old(self).lifted(), (u,), r) && u.shape() == old(t).shape()
                    && final(u).shape() == final(t).shape()) || (old(self).fallback().makes(r)
                && *final(t) == *old(t)),
            (forall|u: &mut U, x: R| #[trigger] call_ensures(old(self).lifted(), (u,), x) ==> *final(u) == *u)
                ==> *final(t) == *old(t),
    {
        broadcast use vstd::function::group_function_axioms;

        let ghost start = *t;
        let r = match cast_mut::<T, U>(t) {
            Some(u) => {
                assert(call_requires(self.lifted(), (u,)));
                (self.mutation)(u)
            },
            None => self.make_default.make_default(),
        };
        proof {
            self.calls@ = self.calls@.push(Call { result: r, before: start.shape(), after: t.shape(), kept: *t == start });
        }
        r
    }
}

impl<M, U: Shaped + 'static, D, R> Mutation<M, U, D, R> where M: Fn(&mut U) -> R, D: Fn() -> R {
    /// Construct a new `Mutation`, returning `make_default()` for the cases where
    /// we query a value whose type is not `U`.
    pub fn or_else(make_default: D, mutation: M) -> (r: Mutation<M, U, D, R>)
        requires
            lifted_callable(mutation),
            call_requires(make_default, ()),
        ensures
            r.lifted() == mutation,
            r.fallback() == make_default,
            r.calls() == Seq::<Call<R>>::empty(),
            GenericMutate::<R>::callable(&r),
    {
        Mutation { make_default, mutation, calls: Ghost(Seq::empty()), phantom: PhantomData }
    }

    /// Calls the mutation on `t`: either the lifted function gave the result
    /// on a value of `t`'s shape and left it with the shape that `t` has
    /// now, or `make_default()` made it and `t` keeps its value. So on a
    /// value whose shape no `U` has, the result is `make_default()`'s.
    pub fn mutate<T: Shaped + 'static>(&mut self, t: &mut T) -> (r: R)
        requires
            GenericMutate::<R>::callable(old(self)),
        ensures
            final(self).lifted() == old(self).lifted(),
            final(self).fallback() == old(self).fallback(),
            final(self).calls() == old(self).calls().push(Call { result: r, before: old(t).shape(), after: final(t).shape(), kept: *final(t) == *old(t) }),
            GenericMutate::<R>::callable(final(self)),
            (exists|u: &mut U|
                #[trigger] call_ensures(old(self).lifted(), (u,), r) && u.shape() == old(t).shape()
                    && final(u).shape() == final(t).shape()) || (call_ensures(old(self).fallback(), (), r)
                && *final(t) == *old(t)),
            (forall|u: &mut U, x: R| #[trigger] call_ensures(old(self).lifted(), (u,), x) ==> *final(u) == *u)
                ==> *final(t) == *old(t),
    {
        self.run(t)
    }
}

impl<M, U: Shaped + 'static, R> Mutation<M, U, UseDefault, R> where M: Fn(&mut U) -> R, R: Default {
    /// Construct a new `Mutation`, returning `R::default()` for the cases where we
    /// query a value whose type is not `U`.
    pub fn new(mutation: M) -> (r: Mutation<M, U, UseDefault, R>)
        requires
            lifted_callable(mutation),
        ensures
            r.lifted() == mutation,
            r.fallback() == UseDefault,
            r.calls() == Seq::<Call<R>>::empty(),
            GenericMutate::<R>::callable(&r),
    {
        Mutation { make_default: UseDefault, mutation, calls: Ghost(Seq::empty()), phantom: PhantomData }
    }

    /// Calls the mutation on `t`: either the lifted function gave the result
    /// on a value of `t`'s shape and left it with the shape that `t` has
    /// now, or it is `R::default()` and `t` keeps its value. So on a value
    /// whose shape no `U` has, the result is `R::default()`.
    pub fn mutate<T: Shaped + 'static>(&mut self, t: &mut T) -> (r: R)
        requires
            GenericMutate::<R>::callable(old(self)),
        ensures
            final(self).lifted() == old(self).lifted(),
            final(self).calls() == old(self).calls().push(Call { result: r, before: old(t).shape(), after: final(t).shape(), kept: *final(t) == *old(t) }),
            GenericMutate::<R>::callable(final(self)),
            (exists|u: &mut U|
                #[trigger] call_ensures(old(self).lifted(), (u,), r) && u.shape() == old(t).shape()
                    && final(u).shape() == final(t).shape()) || (call_ensures(R::default, (), r)
                && *final(t) == *old(t)),
            (forall|u: &mut U, x: R| #[trigger] call_ensures(old(self).lifted(), (u,), x) ==> *final(u) == *u)
                ==> *final(t) == *old(t),
    {
        self.run(t)
    }
}

impl<M, U: Shaped + 'static, D, R> GenericMutate<R> for Mutation<M, U, D, R> where
    M: Fn(&mut U) -> R,
    D: MakeDefault<R>,
 {
    open spec fn applied(&self, r: R, before: Shape) -> bool {
        lifted_gives(self.lifted(), r, before)
    }

    open spec fn defaulted(&self, r: R) -> bool {
        self.fallback().makes(r)
    }

    open spec fn callable(&self) -> bool {
        &&& lifted_callable(self.lifted())
        &&& self.fallback().callable()
    }

    open spec fn log(&self) -> Seq<Call<R>> {
        self.calls()
    }

    fn mutate<T: Shaped + 'static>(&mut self, t: &mut T) -> (r: R) {
        self.run(t)
    }
}

/// Recursively perform a query in a top-down, left-to-right manner across a
/// data structure. The `M: GenericMutate<R>` queries individual values, while the
/// `F: Fold<R>` joins the results of multiple queries into a single result.
#[derive(Debug)]
#[verifier::reject_recursive_types(R)]
pub struct MutateEverything<M, R, F> where M: GenericMutate<R>, F: Fold<R> {
    m: M,
    fold: F,
    phantom: PhantomData<R>,
}

impl<M, R, F> MutateEverything<M, R, F> where M: GenericMutate<R>, F: Fold<R> {
    /// The query run at each value.
    pub closed spec fn query(&self) -> M {
        self.m
    }

    /// The join of the results.
    pub closed spec fn joiner(&self) -> F {
        self.fold
    }

    /// Both the query and the join may be called on anything.
    pub open spec fn callable(&self) -> bool {
        self.query().callable() && self.joiner().callable()
    }

    /// Runs the query on `t` and then, left to right, everywhere inside
    /// each of its children, joining each child's result into the result
    /// so far: the query is called exactly once at every node of `t`, in
    /// pre-order, each child as the call at its parent left it, and the
    /// calls' results are what is folded. Where no call changed its
    /// argument, `t` holds what it held; where no call changed the shape of
    /// its argument, the calls were made on the nodes of `t` in pre-order.
    pub fn mutate<T: Term>(&mut self, t: &mut T) -> (r: R)
        requires
            old(self).callable(),
        ensures
            same_query(final(self).query(), old(self).query()),
            final(self).joiner() == old(self).joiner(),
            final(self).callable(),
            exists|v: Visit<R>|
                #![trigger calls(v)]
                {
                    &&& traced(possible(old(self).query()), old(self).joiner(), final(t).shape(), v)
                    &&& v.before == old(t).shape()
                    &&& v.total == r
                    &&& final(self).query().log() == old(self).query().log() + calls(v)
                    &&& all_kept(calls(v)) ==> final(t).same_as(old(t))
                    &&& shapes_kept(calls(v)) ==> befores(calls(v)) == preorder(old(t).shape())
                },
    {
        let ghost m0 = self.m;
        let ghost f0 = self.fold;
        let ghost t0 = *t;
        let r = t.mutate_everything(&mut self.m, &mut self.fold);
        proof {
            let v = choose|v: Visit<R>|
                {
                    &&& traced(possible(m0), f0, t.shape(), v)
                    &&& v.before == t0.shape()
                    &&& v.total == r
                    &&& self.m.log() == m0.log() + calls(v)
                    &&& all_kept(calls(v)) ==> t.same_as(&t0)
                };
            if shapes_kept(calls(v)) {
                lemma_calls_follow_preorder(possible(m0), f0, t.shape(), v);
            }
        }
        r
    }
}

impl<M, R, F> MutateEverything<M, R, F> where M: GenericMutate<R>, F: Fn(R, R) -> R {
    /// Construct a new `MutateEverything` query traversal.
    pub fn with_query(m: M, fold: F) -> (r: MutateEverything<M, R, F>)
        requires
            m.callable(),
            forall|a: R, b: R| call_requires(fold, (a, b)),
        ensures
            r.query() == m,
            r.joiner() == fold,
            r.callable(),
    {
        MutateEverything { m, fold, phantom: PhantomData }
    }
}

impl<M> MutateEverything<M, (), DiscardResults> where M: GenericMutate<()> {
    /// Construct a new `MutateEverything` query traversal.
    pub fn new(m: M) -> (r: MutateEverything<M, (), DiscardResults>)
        requires
            m.callable(),
        ensures
            r.query() == m,
            r.joiner() == DiscardResults,
            r.callable(),
    {
        MutateEverything { m, fold: DiscardResults, phantom: PhantomData }
    }
}

} // verus!
