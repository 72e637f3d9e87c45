//! Queries that can be called on values of any type, and the traversal
//! that runs one everywhere in a data structure.
use crate::fold::Fold;
use crate::shape::{Call, Shape, Shaped};
use crate::laws::lemma_calls_follow_preorder;
use crate::term::{befores, calls, preorder, shapes_kept, traced, Term, Visit};
use core::marker::PhantomData;
use vstd::prelude::*;

verus! {

/// Views `t` as a value of type `U`.
///
/// Calls `<dyn core::any::Any>::downcast_ref::<U>` on `t`. That function
/// gives back `Some` of the same reference exactly when `T` is `U`, and
/// `None` otherwise. The contract states that a reference that comes back
/// is `t` seen as a `U`, so it has `t`'s shape. Left unsaid, because no
/// contract here can say that two type parameters are one type: when `Some`
/// comes back.
#[verifier::external_body]
fn cast_ref<T: Shaped + 'static, U: Shaped + 'static>(t: &T) -> (r: Option<&U>)
    ensures
        r matches Some(u) ==> u.shape() == t.shape(),
{
    let any: &dyn core::any::Any = t;
    any.downcast_ref::<U>()
}

/// A query that can be called on a value of any type, giving a result of
/// type `R`.
///
/// This is roughly equivalent to `for<T> Fn(&T) -> R`. A query keeps, as
/// ghost state, a record of the calls made of it so far (`log`): each
/// call's result and the shape of its argument (which a query leaves as it
/// was).
pub trait GenericQuery<R>: Sized {
    /// `r` is a result of the underlying function, applied to a value of
    /// shape `before` that it was written for.
    spec fn applied(&self, r: R, before: Shape) -> bool;

    /// `r` is the result given for a value that the underlying function was
    /// not written for.
    spec fn defaulted(&self, r: R) -> bool;

    /// The query may be called on any value.
    spec fn callable(&self) -> bool;

    /// The calls made so far, in order.
    spec fn log(&self) -> Seq<Call<R>>;

    /// Calls the query on `t`: the result is one that the underlying
    /// function gives on a value of `t`'s shape, or it is a default result. The call is added to the
    /// log; the query is otherwise unchanged.
    fn query<T: Shaped + 'static>(&mut self, t: &T) -> (r: R)
        requires
            old(self).callable(),
        ensures
            forall|x: R, s: Shape| #[trigger] final(self).applied(x, s) == old(self).applied(x, s),
            forall|x: R| #[trigger] final(self).defaulted(x) == old(self).defaulted(x),
            final(self).callable() == old(self).callable(),
            final(self).log() == old(self).log().push(Call { result: r, before: t.shape(), after: t.shape(), kept: true }),
            old(self).applied(r, t.shape()) || old(self).defaulted(r),
    ;
}

/// `a` and `b` are the same query, whatever their logs.
pub open spec fn same_queried<R, Q: GenericQuery<R>>(a: Q, b: Q) -> bool {
    &&& forall|x: R, s: Shape| #[trigger] a.applied(x, s) == b.applied(x, s)
    &&& forall|x: R| #[trigger] a.defaulted(x) == b.defaulted(x)
    &&& a.callable() == b.callable()
}

/// What one call of `q` may give on an argument of shape `before`: a
/// result of the underlying function applied to a value of that shape, or
/// a default result. (A query leaves its argument as it was.)
pub open spec fn possible_query<R, Q: GenericQuery<R>>(q: Q) -> spec_fn(R, Shape, Shape) -> bool {
    |x: R, before: Shape, after: Shape| q.applied(x, before) || q.defaulted(x)
}

/// Two queries that are the same query may give the same results.
pub proof fn lemma_possible_query_same<R, Q: GenericQuery<R>>(a: Q, b: Q)
    requires
        same_queried(a, b),
    ensures
        possible_query(a) == possible_query(b),
{
    assert(possible_query(a) =~= possible_query(b));
}

/// `r` is a result that `f` gives when it is called on some `&U` of shape
/// `before`.
pub open spec fn query_gives<Q: Fn(&U) -> R, U: Shaped, R>(f: Q, r: R, before: Shape) -> bool {
    exists|u: &U| #[trigger] call_ensures(f, (u,), r) && u.shape() == before
}

/// `f` may be called on any `&U`.
pub open spec fn query_callable<Q: Fn(&U) -> R, U, R>(f: Q) -> bool {
    forall|u: &U| call_requires(f, (u,))
}

/// A query creates some value `R` from references to a `U`. It can be
/// called on values of any type `T`, not just on values of type `U`, so it
/// needs a default `R` value for when it is called on values which are not a
/// `U`.
///
/// This lifts an `Fn(&U) -> R` into a `for<T> Fn(&T) -> R`.
#[verifier::reject_recursive_types(U)]
#[verifier::reject_recursive_types(R)]
pub struct Query<Q, U, D, R> where Q: Fn(&U) -> R, D: crate::mutation::MakeDefault<R> {
    make_default: D,
    query: Q,
    calls: Ghost<Seq<Call<R>>>,
    phantom: PhantomData<(U, R)>,
}

impl<Q, U, D, R> Query<Q, U, D, R> where Q: Fn(&U) -> R, D: crate::mutation::MakeDefault<R> {
    /// The function that the query lifts.
    pub closed spec fn lifted(&self) -> Q {
        self.query
    }

    /// What makes the result for values that are not a `U`.
    pub closed spec fn fallback(&self) -> D {
        self.make_default
    }

    /// The calls made so far, in order.
    pub closed spec fn calls(&self) -> Seq<Call<R>> {
        self.calls@
    }
}

impl<Q, U: Shaped + 'static, D, R> Query<Q, U, D, R> where
    Q: Fn(&U) -> R,
    D: crate::mutation::MakeDefault<R>,
 {
    /// Calls the lifted function on `t` if `t` is a `U`, and makes the
    /// default result otherwise.
    fn run<T: Shaped + 'static>(&mut self, t: &T) -> (r: R)
        requires
            query_callable(old(self).lifted()),
            old(self).fallback().callable(),
        ensures
            final(self).lifted() == old(self).lifted(),
            final(self).fallback() == old(self).fallback(),
            final(self).calls() == old(self).calls().push(Call { result: r, before: t.shape(), after: t.shape(), kept: true }),
            query_gives(old(self).lifted(), r, t.shape()) || old(self).fallback().makes(r),
    {
        let r = match cast_ref::<T, U>(t) {
            Some(u) => {
                assert(call_requires(self.lifted(), (u,)));
                (self.query)(u)
            },
            None => self.make_default.make_default(),
        };
        proof {
            self.calls@ = self.calls@.push(Call { result: r, before: t.shape(), after: t.shape(), kept: true });
        }
        r
    }
}

impl<Q, U: Shaped + 'static, D, R> Query<Q, U, D, R> where Q: Fn(&U) -> R, D: Fn() -> R {
    /// Construct a new `Query`, returning `make_default()` for the cases
    /// where we query a value whose type is not `U`.
    pub fn or_else(make_default: D, query: Q) -> (r: Query<Q, U, D, R>)
        requires
            query_callable(query),
            call_requires(make_default, ()),
        ensures
            r.lifted() == query,
            r.fallback() == make_default,
            r.calls() == Seq::<Call<R>>::empty(),
            GenericQuery::<R>::callable(&r),
    {
        Query { make_default, query, calls: Ghost(Seq::empty()), phantom: PhantomData }
    }

    /// Calls the query on `t`: the result is one that the lifted function
    /// gives on a value of `t`'s shape, or one that `make_default()` gives.
    /// So on a value whose shape no `U` has, it is `make_default()`'s.
    pub fn query<T: Shaped + 'static>(&mut self, t: &T) -> (r: R)
        requires
            GenericQuery::<R>::callable(old(self)),
        ensures
            final(self).lifted() == old(self).lifted(),
            final(self).fallback() == old(self).fallback(),
            final(self).calls() == old(self).calls().push(Call { result: r, before: t.shape(), after: t.shape(), kept: true }),
            GenericQuery::<R>::callable(final(self)),
            query_gives(old(self).lifted(), r, t.shape()) || call_ensures(old(self).fallback(), (), r),
    {
        self.run(t)
    }
}

impl<Q, U: Shaped + 'static, R> Query<Q, U, crate::mutation::UseDefault, R> where Q: Fn(&U) -> R, R: Default {
    /// Construct a new `Query`, returning `R::default()` for the cases where
    /// we query a value whose type is not `U`.
    pub fn new(query: Q) -> (r: Query<Q, U, crate::mutation::UseDefault, R>)
        requires
            query_callable(query),
        ensures
            r.lifted() == query,
            r.fallback() == crate::mutation::UseDefault,
            r.calls() == Seq::<Call<R>>::empty(),
            GenericQuery::<R>::callable(&r),
    {
        Query {
            make_default: crate::mutation::UseDefault,
            query,
            calls: Ghost(Seq::empty()),
            phantom: PhantomData,
        }
    }

    /// Calls the query on `t`: the result is one that the lifted function
    /// gives on a value of `t`'s shape, or it is `R::default()`. So on a
    /// value whose shape no `U` has, it is `R::default()`.
    pub fn query<T: Shaped + 'static>(&mut self, t: &T) -> (r: R)
        requires
            GenericQuery::<R>::callable(old(self)),
        ensures
            final(self).lifted() == old(self).lifted(),
            final(self).calls() == old(self).calls().push(Call { result: r, before: t.shape(), after: t.shape(), kept: true }),
            GenericQuery::<R>::callable(final(self)),
            query_gives(old(self).lifted(), r, t.shape()) || call_ensures(R::default, (), r),
    {
        self.run(t)
    }
}

impl<Q, U: Shaped + 'static, D, R> GenericQuery<R> for Query<Q, U, D, R> where
    Q: Fn(&U) -> R,
    D: crate::mutation::MakeDefault<R>,
 {
    open spec fn applied(&self, r: R, before: Shape) -> bool {
        query_gives(self.lifted(), r, before)
    }

    open spec fn defaulted(&self, r: R) -> bool {
        self.fallback().makes(r)
    }

    open spec fn callable(&self) -> bool {
        &&& query_callable(self.lifted())
        &&& self.fallback().callable()
    }

    open spec fn log(&self) -> Seq<Call<R>> {
        self.calls()
    }

    fn query<T: Shaped + 'static>(&mut self, t: &T) -> (r: R) {
        self.run(t)
    }
}

/// Recursively perform a query in a top-down, left-to-right manner across a
/// data structure. The `Q: GenericQuery<R>` queries individual values, while
/// the `F: Fold<R>` joins the results of multiple queries into a single
/// result.
#[derive(Debug)]
#[verifier::reject_recursive_types(R)]
pub struct Everything<Q, R, F> where Q: GenericQuery<R>, F: Fold<R> {
    q: Q,
    fold: F,
    phantom: PhantomData<R>,
}

impl<Q, R, F> Everything<Q, R, F> where Q: GenericQuery<R>, F: Fold<R> {
    /// The query run at each value.
    pub closed spec fn inner(&self) -> Q {
        self.q
    }

    /// The join of the results.
    pub closed spec fn joiner(&self) -> F {
        self.fold
    }

    /// Both the query and the join may be called on anything.
    pub open spec fn callable(&self) -> bool {
        self.inner().callable() && self.joiner().callable()
    }

    /// Runs the query on `t` and then, left to right, everywhere inside
    /// each of its children, joining each child's result into the result
    /// so far: the query is called exactly once at every node of `t`, the
    /// calls are made on the nodes of `t` in pre-order, and the calls'
    /// results are what is folded.
    pub fn query<T: Term>(&mut self, t: &T) -> (r: R)
        requires
            old(self).callable(),
        ensures
            same_queried(final(self).inner(), old(self).inner()),
            final(self).joiner() == old(self).joiner(),
            final(self).callable(),
            exists|v: Visit<R>|
                #![trigger calls(v)]
                {
                    &&& traced(possible_query(old(self).inner()), old(self).joiner(), t.shape(), v)
                    &&& v.before == t.shape()
                    &&& v.total == r
                    &&& final(self).inner().log() == old(self).inner().log() + calls(v)
                    &&& befores(calls(v)) == preorder(t.shape())
                },
    {
        let ghost q0 = self.q;
        let ghost f0 = self.fold;
        let r = t.query_everything(&mut self.q, &mut self.fold);
        proof {
            let v = choose|v: Visit<R>|
                {
                    &&& traced(possible_query(q0), f0, t.shape(), v)
                    &&& v.before == t.shape()
                    &&& v.total == r
                    &&& self.q.log() == q0.log() + calls(v)
                    &&& shapes_kept(calls(v))
                };
            lemma_calls_follow_preorder(possible_query(q0), f0, t.shape(), v);
        }
        r
    }
}

impl<Q, R, F> Everything<Q, R, F> where Q: GenericQuery<R>, F: Fn(R, R) -> R {
    /// Construct a new `Everything` query traversal.
    pub fn new(q: Q, fold: F) -> (r: Everything<Q, R, F>)
        requires
            q.callable(),
            forall|a: R, b: R| call_requires(fold, (a, b)),
        ensures
            r.inner() == q,
            r.joiner() == fold,
            r.callable(),
    {
        Everything { q, fold, phantom: PhantomData }
    }
}

} // verus!
