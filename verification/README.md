# scrapmetal

Generic traversals in the "scrap your boilerplate" style. A `Mutation` lifts a
function on one type to a query that can be called on a value of any type;
`MutateEverything` runs such a query top-down and left-to-right everywhere
inside a data structure, joining the results with a fold. `Query` and
`Everything` do the same for read-only queries, and `Transformation` and
`Everywhere` for functions that take a value and give back a new one,
applied bottom-up.

Layout:

- `src/mutation.rs`: `GenericMutate`, `Mutation`, `MutateEverything`, and the
  ways of making default results (`MakeDefault`, `UseDefault`).
- `src/query.rs`: `GenericQuery`, `Query`, `Everything`.
- `src/transform.rs`: `GenericTransform`, `Transformation`, `Everywhere`, and
  the record of a bottom-up traversal (`traced_up`, `calls_up`,
  `postorder`).
- `src/shape.rs`: the `Shape` of a value (what each node holds and its
  children, in the order in which they are visited), the `Shaped` trait, and
  the record of one call (`Call`).
- `src/term.rs`: the `Term` trait that says how a value is walked through, the
  record of a traversal (`Visit`, `calls`, `traced`, `preorder`), and `Term`
  for the standard types.
- `src/fold.rs`: the `Fold` trait for joining results and the left fold over a
  sequence of results.
- `src/laws.rs`: what holds of every traversal (a value without children gives
  the result of its one query call; the query is called once per value; with
  a counting query and an adding fold the result is the number of values;
  where no call changes the shape of its argument, the calls are made on the
  nodes in pre-order, or in post-order for a transformation; a lifted
  function gives nothing on a value of a shape that no value of its type
  has).
- `src/company.rs`: the `Person` type.
- `app/`: the company model of the paper, whose salaries are floats, with its
  hand-written traversals.

Every query keeps a ghost record of its calls: for each call, its result, the
shape of its argument before and after it, and whether it left its argument
as it was. So the traversals' contracts say on which node each call was made,
in which order, that their results are what was folded, and that a traversal
whose calls all left their arguments alone leaves the data as it was. A
lifted function gives its result only on a value of a shape that values of
its own type have; elsewhere the default is given and the value is left as
it was. What the contracts cannot say is that a lifted function does apply to
a value of its own type: that depends on whether two type parameters are one
type. A type implemented outside `src/` keeps the default shape, a node
without children, and the contracts say nothing of what is inside it.

Everything under `src/` is verified; `app/` is ordinary Rust.
