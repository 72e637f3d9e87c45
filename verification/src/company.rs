//! A small data model to traverse.
use crate::fold::{folds_left, lemma_fold_trace_push, Fold};
use crate::mutation::GenericMutate;
use crate::query::{lemma_possible_query_same, possible_query, GenericQuery};
use crate::shape::{Call, Label, Shape, Shaped};
use crate::transform::{
    calls_up, calls_up_of, lemma_calls_up_of_push, lemma_possible_change_same, possible_change,
    traced_up, traced_up_all, GenericTransform,
};
use crate::term::{
    all_kept, calls, calls_of, lemma_all_kept_concat, lemma_calls_of_push, lemma_possible_same,
    lemma_shapes_kept_concat, possible, shapes_kept, totals, traced, traced_all, Term, Visit,
};
use vstd::prelude::*;

verus! {

/// A person's name.
pub type Name = &'static str;

/// A person's address.
pub type Address = &'static str;

/// A person: a name and an address.
#[derive(Clone, Debug, PartialEq)]
pub struct Person(pub Name, pub Address);

impl Shaped for Person {
    open spec fn shape(&self) -> Shape {
        Shape { label: Label::Node, children: seq![self.0.shape(), self.1.shape()] }
    }
}

impl Term for Person {
    fn map_one_transform<G: GenericTransform>(self, g: &mut G) -> (r: Self) {
        let ghost g0 = *g;
        let ghost start = self;
        let name = self.0.transform_everywhere(g);
        let ghost g1 = *g;
        let address = self.1.transform_everywhere(g);
        let r = Person(name, address);
        proof {
            lemma_possible_change_same(g1, g0);
            let v_name = choose|v: Visit<()>|
                {
                    &&& traced_up(possible_change(g0), start.0.shape(), v)
                    &&& v.after == name.shape()
                    &&& g1.log() == g0.log() + calls_up(v)
                    &&& all_kept(calls_up(v)) ==> name == start.0
                };
            let v_address = choose|v: Visit<()>|
                {
                    &&& traced_up(possible_change(g1), start.1.shape(), v)
                    &&& v.after == address.shape()
                    &&& g.log() == g1.log() + calls_up(v)
                    &&& all_kept(calls_up(v)) ==> address == start.1
                };
            let empty = Seq::<Visit<()>>::empty();
            lemma_calls_up_of_push(empty, v_name);
            lemma_calls_up_of_push(empty.push(v_name), v_address);
            let vs = empty.push(v_name).push(v_address);
            assert(calls_up_of(empty) =~= Seq::<Call<()>>::empty());
            assert(traced_up_all(possible_change(g0), start.shape().children, r.shape().children, vs));
            assert(g.log() =~= g0.log() + calls_up_of(vs));
            assert(calls_up_of(vs) =~= calls_up(v_name) + calls_up(v_address));
            lemma_all_kept_concat(calls_up(v_name), calls_up(v_address));
        }
        r
    }

    fn map_one_mutation<M: GenericMutate<R>, R, F: Fold<R>>(
        &mut self,
        m: &mut M,
        fold: &mut F,
        acc: R,
    ) -> (r: R) {
        let ghost m0 = *m;
        let ghost f0 = *fold;
        let ghost start = *self;
        let r_name = self.0.mutate_everything(m, fold);
        let ghost m1 = *m;
        let acc_name = fold.fold(acc, r_name);
        let r_address = self.1.mutate_everything(m, fold);
        let acc_address = fold.fold(acc_name, r_address);
        proof {
            lemma_possible_same(m1, m0);
            let v_name = choose|v: Visit<R>|
                {
                    &&& traced(possible(m0), f0, self.0.shape(), v)
                    &&& v.before == start.0.shape()
                    &&& v.total == r_name
                    &&& m1.log() == m0.log() + calls(v)
                    &&& all_kept(calls(v)) ==> self.0 == start.0
                };
            let v_address = choose|v: Visit<R>|
                {
                    &&& traced(possible(m1), f0, self.1.shape(), v)
                    &&& v.before == start.1.shape()
                    &&& v.total == r_address
                    &&& m.log() == m1.log() + calls(v)
                    &&& all_kept(calls(v)) ==> self.1 == start.1
                };
            let empty = Seq::<Visit<R>>::empty();
            lemma_calls_of_push(empty, v_name);
            lemma_calls_of_push(empty.push(v_name), v_address);
            let vs = empty.push(v_name).push(v_address);
            assert(totals(empty) =~= Seq::<R>::empty());
            assert(calls_of(empty) =~= Seq::<Call<R>>::empty());
            lemma_fold_trace_push(f0, acc, totals(empty), seq![acc], r_name, acc_name);
            assert(seq![acc].push(acc_name) =~= seq![acc, acc_name]);
            lemma_fold_trace_push(f0, acc, totals(empty.push(v_name)), seq![acc, acc_name], r_address, acc_address);
            assert(traced_all(possible(m0), f0, start.shape().children, self.shape().children, vs));
            assert(folds_left(f0, acc, totals(vs), acc_address));
            assert(m.log() =~= m0.log() + calls_of(vs));
            assert(calls_of(vs) =~= calls(v_name) + calls(v_address));
            lemma_all_kept_concat(calls(v_name), calls(v_address));
        }
        acc_address
    }

    fn map_one_query<Q: GenericQuery<R>, R, F: Fold<R>>(&self, q: &mut Q, fold: &mut F, acc: R) -> (r: R) {
        let ghost q0 = *q;
        let ghost f0 = *fold;
        let r_name = self.0.query_everything(q, fold);
        let ghost q1 = *q;
        let acc_name = fold.fold(acc, r_name);
        let r_address = self.1.query_everything(q, fold);
        let acc_address = fold.fold(acc_name, r_address);
        proof {
            lemma_possible_query_same(q1, q0);
            let v_name = choose|v: Visit<R>|
                {
                    &&& traced(possible_query(q0), f0, self.0.shape(), v)
                    &&& v.before == self.0.shape()
                    &&& v.total == r_name
                    &&& q1.log() == q0.log() + calls(v)
                    &&& shapes_kept(calls(v))
                };
            let v_address = choose|v: Visit<R>|
                {
                    &&& traced(possible_query(q1), f0, self.1.shape(), v)
                    &&& v.before == self.1.shape()
                    &&& v.total == r_address
                    &&& q.log() == q1.log() + calls(v)
                    &&& shapes_kept(calls(v))
                };
            let empty = Seq::<Visit<R>>::empty();
            lemma_calls_of_push(empty, v_name);
            lemma_calls_of_push(empty.push(v_name), v_address);
            let vs = empty.push(v_name).push(v_address);
            assert(totals(empty) =~= Seq::<R>::empty());
            assert(calls_of(empty) =~= Seq::<Call<R>>::empty());
            lemma_fold_trace_push(f0, acc, totals(empty), seq![acc], r_name, acc_name);
            assert(seq![acc].push(acc_name) =~= seq![acc, acc_name]);
            lemma_fold_trace_push(f0, acc, totals(empty.push(v_name)), seq![acc, acc_name], r_address, acc_address);
            assert(traced_all(possible_query(q0), f0, self.shape().children, self.shape().children, vs));
            assert(folds_left(f0, acc, totals(vs), acc_address));
            assert(q.log() =~= q0.log() + calls_of(vs));
            assert(calls_of(vs) =~= calls(v_name) + calls(v_address));
            lemma_shapes_kept_concat(calls(v_name), calls(v_address));
        }
        acc_address
    }
}

} // verus!
