//! The composability graph: which layer is worth applying after which.

use crate::config::Config;
use crate::layers::{Layer, Layers};
use crate::ledger::Ledger;
use crate::vector::{
    compose, compose_into, copy_table, distinct, distinct_count, identity, identity_table,
    in_range, lemma_in_range_facts,
};
use vstd::prelude::*;
use vstd::set_lib::{
    lemma_int_range, lemma_len_union, lemma_map_size, lemma_map_size_bound,
    lemma_set_difference_len, set_int_range,
};

verus! {

/// A cheap lower bound on the number of different values that a child with
/// `child_distinct` different outputs still has behind a parent with
/// `parent_distinct` different outputs, over `n` states.
pub open spec fn worst_case(child_distinct: nat, parent_distinct: nat, n: nat) -> nat {
    let lost = n - parent_distinct + 1;
    if child_distinct <= lost {
        0
    } else {
        (child_distinct - lost) as nat
    }
}

/// Computes the cheap lower bound.
pub fn worst_distinct(child_distinct: usize, parent_distinct: usize, states: usize) -> (worst:
    usize)
    requires
        parent_distinct <= states,
        states < usize::MAX,
    ensures
        worst == worst_case(child_distinct as nat, parent_distinct as nat, states as nat),
{
    let lost: usize = states - parent_distinct + 1;
    if child_distinct <= lost {
        0
    } else {
        child_distinct - lost
    }
}

/// The rule by which the graph builder keeps a composed table: it drops the
/// table only if the cheap bound is below `required` and the exact count is
/// below `required` too.
pub open spec fn passes_bound_then_count(
    child_distinct: nat,
    parent_distinct: nat,
    n: nat,
    required: nat,
    exact: nat,
) -> bool {
    !(worst_case(child_distinct, parent_distinct, n) < required && exact < required)
}

/// The values below `n` that occur in `table`, as integers.
spec fn image(table: Seq<u8>, n: nat) -> Set<int> {
    Set::new(|v: int| 0 <= v < n && table.contains(v as u8))
}

/// The image of a table in range has as many members as the table has
/// different values.
proof fn lemma_image_len(table: Seq<u8>, n: nat)
    requires
        in_range(table, n),
        n <= 256,
    ensures
        image(table, n).finite(),
        image(table, n).len() == distinct_count(table),
        image(table, n).subset_of(set_int_range(0, n as int)),
{
    let widen = |v: u8| v as int;
    let values = table.to_set();
    assert(values.finite()) by {
        broadcast use vstd::seq_lib::seq_to_set_is_finite;

    }
    assert(values.map(widen) =~= image(table, n)) by {
        assert forall|x: int| values.map(widen).contains(x) <==> image(table, n).contains(x) by {
            if values.map(widen).contains(x) {
                let v = choose|v: u8| values.contains(v) && widen(v) == x;
                let i = choose|i: int| 0 <= i < table.len() && table[i] == v;
                assert((table[i] as nat) < n);
            }
            if image(table, n).contains(x) {
                assert(values.contains(x as u8));
                assert(widen(x as u8) == x);
            }
        }
    }
    assert(vstd::relations::injective_on(widen, values));
    lemma_map_size(values, image(table, n), widen);
}

/// The cheap bound never exceeds the exact number of different values of the
/// composed table.
pub proof fn lemma_worst_case_bound(child: Seq<u8>, parent: Seq<u8>, n: nat)
    requires
        in_range(child, n),
        in_range(parent, n),
        n <= 256,
    ensures
        worst_case(distinct_count(child), distinct_count(parent), n) <= distinct_count(
            compose(child, parent),
        ),
{
    let through = |v: int| child[v];
    let all = set_int_range(0, n as int);
    let hit = image(parent, n);
    let missed = all.difference(hit);
    lemma_int_range(0, n as int);
    lemma_image_len(parent, n);
    lemma_set_difference_len(all, hit);
    assert(all.intersect(hit) =~= hit);
    assert(missed.len() == n - distinct_count(parent));
    assert(missed.finite()) by {
        broadcast use vstd::set::group_set_axioms;

    }
    let composed = compose(child, parent);
    assert(hit.map(through) =~= composed.to_set()) by {
        assert forall|x: u8| hit.map(through).contains(x) <==> composed.to_set().contains(x) by {
            if hit.map(through).contains(x) {
                let v = choose|v: int| hit.contains(v) && through(v) == x;
                let i = choose|i: int| 0 <= i < parent.len() && parent[i] == v as u8;
                assert(composed[i] == x);
            }
            if composed.to_set().contains(x) {
                let i = choose|i: int| 0 <= i < composed.len() && composed[i] == x;
                assert((parent[i] as nat) < n);
                assert(hit.contains(parent[i] as int));
                assert(through(parent[i] as int) == x);
            }
        }
    }
    assert(hit.map(through).union(missed.map(through)) =~= child.to_set()) by {
        assert forall|x: u8|
            hit.map(through).union(missed.map(through)).contains(x) <==> child.to_set().contains(
                x,
            ) by {
            if hit.map(through).contains(x) {
                let v = choose|v: int| hit.contains(v) && through(v) == x;
                assert(child[v] == x);
            }
            if missed.map(through).contains(x) {
                let v = choose|v: int| missed.contains(v) && through(v) == x;
                assert(child[v] == x);
            }
            if child.to_set().contains(x) {
                let i = choose|i: int| 0 <= i < child.len() && child[i] == x;
                assert(all.contains(i));
                assert(through(i) == x);
                if hit.contains(i) {
                    assert(hit.map(through).contains(x));
                } else {
                    assert(missed.contains(i));
                    assert(missed.map(through).contains(x));
                }
            }
        }
    }
    lemma_map_size_bound(hit, hit.map(through), through);
    lemma_map_size_bound(missed, missed.map(through), through);
    lemma_len_union(hit.map(through), missed.map(through));
}

/// The short cut through the cheap bound never changes a decision: the rule
/// keeps a composed table exactly when its exact count reaches `required`.
pub proof fn lemma_bound_agrees_with_count(child: Seq<u8>, parent: Seq<u8>, n: nat, required: nat)
    requires
        in_range(child, n),
        in_range(parent, n),
        n <= 256,
    ensures
        passes_bound_then_count(
            distinct_count(child),
            distinct_count(parent),
            n,
            required,
            distinct_count(compose(child, parent)),
        ) <==> distinct_count(compose(child, parent)) >= required,
{
    lemma_worst_case_bound(child, parent, n);
}

/// The ledger with which graph construction starts: the identity and the
/// table of every layer.
pub open spec fn initial_ledger(tables: Seq<Seq<u8>>, n: nat) -> Set<Seq<u8>> {
    tables.to_set().insert(identity(n))
}

/// Applying `child` after `parent` gives a table that `seen` does not hold
/// and that has at least `required` different values.
pub open spec fn is_edge(seen: Set<Seq<u8>>, parent: Seq<u8>, child: Seq<u8>, required: nat)
    -> bool {
    &&& !seen.contains(compose(child, parent))
    &&& distinct_count(compose(child, parent)) >= required
}

/// The ledger just before the pair of parent `p` and child `c` is looked at,
/// when the pairs are taken parent by parent and, for each parent, child by
/// child.
pub open spec fn seen_before(tables: Seq<Seq<u8>>, n: nat, required: nat, p: nat, c: nat) -> Set<
    Seq<u8>,
>
    decreases p, c,
{
    if c > 0 {
        let seen = seen_before(tables, n, required, p, (c - 1) as nat);
        if is_edge(seen, tables[p as int], tables[c - 1], required) {
            seen.insert(compose(tables[c - 1], tables[p as int]))
        } else {
            seen
        }
    } else if p > 0 {
        seen_before(tables, n, required, (p - 1) as nat, tables.len())
    } else {
        initial_ledger(tables, n)
    }
}

/// The children that parent `p` gets from the first `c` layers, in rising
/// order.
pub open spec fn row_edges(tables: Seq<Seq<u8>>, n: nat, required: nat, p: nat, c: nat) -> Seq<
    usize,
>
    decreases c,
{
    if c == 0 {
        Seq::empty()
    } else {
        let edges = row_edges(tables, n, required, p, (c - 1) as nat);
        if is_edge(
            seen_before(tables, n, required, p, (c - 1) as nat),
            tables[p as int],
            tables[c - 1],
            required,
        ) {
            edges.push((c - 1) as usize)
        } else {
            edges
        }
    }
}

/// The children that layer `q` has gained when the pass stands before the
/// pair of parent `p` and child `c`.
pub open spec fn edges_so_far(
    tables: Seq<Seq<u8>>,
    n: nat,
    required: nat,
    q: nat,
    p: nat,
    c: nat,
) -> Seq<usize> {
    if q < p {
        row_edges(tables, n, required, q, tables.len())
    } else if q == p {
        row_edges(tables, n, required, q, c)
    } else {
        Seq::empty()
    }
}

impl Layer {
    /// The layer is `before` with `edges` added to its children, and is a
    /// parent if `before` was one or an edge was added.
    pub open spec fn extends(&self, before: Layer, edges: Seq<usize>) -> bool {
        &&& self.output@ == before.output@
        &&& self.distinct == before.distinct
        &&& self.notation@ == before.notation@
        &&& self.children@ == before.children@ + edges
        &&& self.valid_parent == (before.valid_parent || edges.len() > 0)
    }
}

impl Layers {
    /// Every layer is the layer of `before` at its index, extended by the
    /// children that the pass gives it.
    pub open spec fn populated_from(&self, before: Layers, n: nat, required: nat) -> bool {
        &&& self.layers@.len() == before.layers@.len()
        &&& forall|q: int|
            0 <= q < self.layers@.len() ==> (#[trigger] self.layers@[q]).extends(
                before.layers@[q],
                row_edges(before.tables(), n, required, q as nat, before.layers@.len()),
            )
    }

    /// Every layer is the layer of `before` at its index, extended by the
    /// children that the pass has given it when `row` parents have been
    /// dealt with.
    pub open spec fn populated_to(&self, before: Layers, n: nat, required: nat, row: nat) -> bool {
        &&& self.layers@.len() == before.layers@.len()
        &&& forall|q: int|
            0 <= q < self.layers@.len() ==> (#[trigger] self.layers@[q]).extends(
                before.layers@[q],
                edges_so_far(before.tables(), n, required, q as nat, row, 0),
            )
    }

    /// The number of units of work that graph construction is announced
    /// with: one for each ordered pair of layers.
    pub fn population_work(&self) -> (units: u64)
        requires
            self.layers@.len() <= u32::MAX,
        ensures
            units == self.layers@.len() * self.layers@.len(),
    {
        let count: u64 = self.layers.len() as u64;
        assert(count * count <= 0xFFFF_FFFF * 0xFFFF_FFFF) by (nonlinear_arith)
            requires
                count <= 0xFFFF_FFFF,
        ;
        count * count
    }

    /// Populates each layer with its children. Every ordered pair of a parent
    /// and a child is looked at once, parent by parent, against a ledger
    /// that starts with the identity and every layer's table. A pair becomes
    /// an edge, and its composed table is registered, when the ledger does
    /// not hold that table and the table has enough different values.
    pub fn populate_children(&mut self, config: &Config)
        requires
            config.wf(),
            old(self).wf(config.states as nat),
        ensures
            final(self).populated_from(*old(self), config.states as nat, config.distinct as nat),
            final(self).wf(config.states as nat),
    {
        let mut taken: Layers = Layers { layers: Vec::new() };
        std::mem::swap(self, &mut taken);
        let mut population: Population = Population::start(taken, config);
        while !population.finished()
            invariant
                population.origin() == *old(self),
                population.states() == config.states,
                population.required() == config.distinct,
                population.row() <= population.origin().layers@.len(),
            decreases population.origin().layers@.len() - population.row(),
        {
            population = population.step();
        }
        *self = population.finish();
    }
}

/// Graph construction in steps of one parent, for a caller that has
/// something to do between the steps.
pub struct Population {
    states: usize,
    required: usize,
    parent: usize,
    layers: Layers,
    ledger: Ledger,
    buffer: Vec<u8>,
    origin: Ghost<Layers>,
}

impl Population {
    /// The ledger and the children are those that the pass has reached
    /// when it stands before the first child of `parent`.
    #[verifier::type_invariant]
    spec fn inv(&self) -> bool {
        &&& 1 <= self.states <= 256
        &&& self.origin@.wf(self.states as nat)
        &&& self.layers.layers@.len() == self.origin@.layers@.len()
        &&& self.parent <= self.origin@.layers@.len()
        &&& self.ledger@ == seen_before(
            self.origin@.tables(),
            self.states as nat,
            self.required as nat,
            self.parent as nat,
            0,
        )
        &&& forall|q: int|
            0 <= q < self.layers.layers@.len() ==> (#[trigger] self.layers.layers@[q]).extends(
                self.origin@.layers@[q],
                edges_so_far(
                    self.origin@.tables(),
                    self.states as nat,
                    self.required as nat,
                    q as nat,
                    self.parent as nat,
                    0,
                ),
            )
    }

    /// The number of states.
    pub closed spec fn states(&self) -> nat {
        self.states as nat
    }

    /// The least number of different values that a composed table has.
    pub closed spec fn required(&self) -> nat {
        self.required as nat
    }

    /// The number of parents that have been dealt with.
    pub closed spec fn row(&self) -> nat {
        self.parent as nat
    }

    /// The layers as they were handed over.
    pub closed spec fn origin(&self) -> Layers {
        self.origin@
    }

    /// The layers with the children that they have been given so far.
    pub closed spec fn current(&self) -> Layers {
        self.layers
    }

    /// Graph construction before its first parent: the ledger holds the
    /// identity and the table of every layer.
    pub fn start(layers: Layers, config: &Config) -> (population: Population)
        requires
            config.wf(),
            layers.wf(config.states as nat),
        ensures
            population.origin() == layers,
            population.current() == layers,
            population.states() == config.states,
            population.required() == config.distinct,
            population.row() == 0,
    {
        let ghost n = config.states as nat;
        let ghost tables = layers.tables();
        let count: usize = layers.layers.len();
        let mut ledger: Ledger = Ledger::new();
        ledger.insert(identity_table(config.states));
        let mut index: usize = 0;
        while index < count
            invariant
                index <= count,
                count == layers.layers@.len(),
                tables == layers.tables(),
                ledger@ == tables.take(index as int).to_set().insert(identity(n)),
            decreases count - index,
        {
            ledger.insert(copy_table(&layers.layers[index].output));
            proof {
                assert(tables.take(index + 1) == tables.take(index as int).push(
                    tables[index as int],
                ));
                tables.take(index as int).lemma_push_to_set_commute(tables[index as int]);
                assert(ledger@ =~= tables.take(index + 1).to_set().insert(identity(n)));
            }
            index += 1;
        }
        proof {
            assert(tables.take(count as int) == tables);
            assert forall|q: int| 0 <= q < layers.layers@.len() implies (
            #[trigger] layers.layers@[q]).extends(
                layers.layers@[q],
                edges_so_far(tables, n, config.distinct as nat, q as nat, 0, 0),
            ) by {
                assert(layers.layers@[q].children@ + Seq::<usize>::empty()
                    == layers.layers@[q].children@);
            }
        }
        Population {
            states: config.states,
            required: config.distinct,
            parent: 0,
            origin: Ghost(layers),
            layers,
            ledger,
            buffer: Vec::new(),
        }
    }

    /// Tells whether every parent has been dealt with.
    pub fn finished(&self) -> (done: bool)
        ensures
            done == (self.row() == self.origin().layers@.len()),
            self.row() <= self.origin().layers@.len(),
    {
        proof {
            use_type_invariant(self);
        }
        self.parent == self.layers.layers.len()
    }

    /// Looks at every child behind the next parent, if a parent is left.
    pub fn step(self) -> (after: Population)
        ensures
            after.origin() == self.origin(),
            after.states() == self.states(),
            after.required() == self.required(),
            after.row() == if self.row() < self.origin().layers@.len() {
                self.row() + 1
            } else {
                self.row()
            },
            after.current().populated_to(
                after.origin(),
                after.states(),
                after.required(),
                after.row(),
            ),
    {
        proof {
            use_type_invariant(&self);
        }
        if self.parent == self.layers.layers.len() {
            return self;
        }
        let Population { states, required, parent, mut layers, mut ledger, mut buffer, origin } =
            self;
        let count: usize = layers.layers.len();
        let ghost n = states as nat;
        let ghost needed = required as nat;
        let ghost before = origin@.layers@;
        let ghost tables = origin@.tables();
        let mut child: usize = 0;
        while child < count
            invariant
                parent < count,
                child <= count,
                count == layers.layers@.len(),
                count == before.len(),
                count == tables.len(),
                n == states,
                needed == required,
                n <= 256,
                forall|q: int| 0 <= q < count ==> (#[trigger] before[q]).wf(n),
                forall|q: int| 0 <= q < count ==> #[trigger] tables[q] == before[q].output@,
                ledger@ == seen_before(tables, n, needed, parent as nat, child as nat),
                forall|q: int|
                    0 <= q < count ==> (#[trigger] layers.layers@[q]).extends(
                        before[q],
                        edges_so_far(tables, n, needed, q as nat, parent as nat, child as nat),
                    ),
            decreases count - child,
        {
            let ghost now = layers.layers@;
            proof {
                assert(now[parent as int].extends(
                    before[parent as int],
                    edges_so_far(tables, n, needed, parent as nat, parent as nat, child as nat),
                ));
                assert(now[child as int].extends(
                    before[child as int],
                    edges_so_far(tables, n, needed, child as nat, parent as nat, child as nat),
                ));
                assert(before[parent as int].wf(n));
                assert(before[child as int].wf(n));
                assert(tables[parent as int] == before[parent as int].output@);
                assert(tables[child as int] == before[child as int].output@);
                lemma_in_range_facts(tables[child as int], tables[parent as int], n);
                lemma_in_range_facts(tables[parent as int], tables[child as int], n);
                lemma_worst_case_bound(tables[child as int], tables[parent as int], n);
            }
            compose_into(&layers.layers[child].output, &layers.layers[parent].output, &mut buffer);
            let mut keep: bool = false;
            if !ledger.contains(&buffer) {
                let worst: usize = worst_distinct(
                    layers.layers[child].distinct,
                    layers.layers[parent].distinct,
                    states,
                );
                if !(worst < required && distinct(&buffer) < required) {
                    keep = true;
                }
            }
            assert(keep == is_edge(
                seen_before(tables, n, needed, parent as nat, child as nat),
                tables[parent as int],
                tables[child as int],
                needed,
            ));
            if keep {
                ledger.insert(copy_table(&buffer));
                layers.layers[parent].children.push(child);
                layers.layers[parent].valid_parent = true;
            }
            proof {
                assert forall|q: int| 0 <= q < count implies (#[trigger] layers.layers@[q]).extends(
                    before[q],
                    edges_so_far(tables, n, needed, q as nat, parent as nat, (child + 1) as nat),
                ) by {
                    assert(now[q].extends(
                        before[q],
                        edges_so_far(tables, n, needed, q as nat, parent as nat, child as nat),
                    ));
                    if q != parent {
                        assert(layers.layers@[q] == now[q]);
                    } else if keep {
                        let old_edges = row_edges(tables, n, needed, parent as nat, child as nat);
                        assert(layers.layers@[q].children@ == now[q].children@.push(child));
                        assert(before[q].children@ + old_edges.push(child) == (before[q].children@
                            + old_edges).push(child));
                    }
                }
            }
            child += 1;
        }
        Population { states, required, parent: parent + 1, layers, ledger, buffer, origin }
    }

    /// The layers with the children that they have been given; when every
    /// parent has been dealt with, those of the whole pass.
    pub fn finish(self) -> (made: Layers)
        ensures
            made == self.current(),
            made.populated_to(self.origin(), self.states(), self.required(), self.row()),
            self.row() == self.origin().layers@.len() ==> made.populated_from(
                self.origin(),
                self.states(),
                self.required(),
            ) && made.wf(self.states()),
    {
        proof {
            use_type_invariant(&self);
            if self.parent == self.origin@.layers@.len() {
                assert forall|q: int| 0 <= q < self.layers.layers@.len() implies (
                #[trigger] self.layers.layers@[q]).extends(
                    self.origin@.layers@[q],
                    row_edges(
                        self.origin@.tables(),
                        self.states as nat,
                        self.required as nat,
                        q as nat,
                        self.origin@.layers@.len(),
                    ),
                ) by {
                    assert(self.layers.layers@[q].extends(
                        self.origin@.layers@[q],
                        edges_so_far(
                            self.origin@.tables(),
                            self.states as nat,
                            self.required as nat,
                            q as nat,
                            self.parent as nat,
                            0,
                        ),
                    ));
                }
                lemma_populated_wf(
                    self.origin@,
                    self.layers,
                    self.states as nat,
                    self.required as nat,
                );
            }
        }
        self.layers
    }
}

/// Every child that a row gains is the index of a layer.
proof fn lemma_row_edges_in_bounds(tables: Seq<Seq<u8>>, n: nat, required: nat, p: nat, c: nat)
    requires
        c <= tables.len(),
        tables.len() <= usize::MAX,
    ensures
        forall|i: int|
            0 <= i < row_edges(tables, n, required, p, c).len() ==> (#[trigger] row_edges(
                tables,
                n,
                required,
                p,
                c,
            )[i]) < c,
    decreases c,
{
    if c > 0 {
        lemma_row_edges_in_bounds(tables, n, required, p, (c - 1) as nat);
        let shorter = row_edges(tables, n, required, p, (c - 1) as nat);
        let longer = row_edges(tables, n, required, p, c);
        assert forall|i: int| 0 <= i < longer.len() implies (#[trigger] longer[i]) < c by {
            if i < shorter.len() {
                assert(longer[i] == shorter[i]);
            }
        }
    }
}

/// A well-formed collection stays well formed when its layers gain the
/// children of a pass.
proof fn lemma_populated_wf(before: Layers, after: Layers, n: nat, required: nat)
    requires
        before.wf(n),
        after.populated_from(before, n, required),
        before.layers@.len() <= usize::MAX,
    ensures
        after.wf(n),
{
    let tables = before.tables();
    let count = before.layers@.len();
    assert forall|i: int| 0 <= i < after.layers@.len() implies (#[trigger] after.layers@[i]).wf(
        n,
    ) by {
        assert(before.layers@[i].wf(n));
        assert(after.layers@[i].extends(
            before.layers@[i],
            row_edges(tables, n, required, i as nat, count),
        ));
    }
    assert forall|i: int, j: int| 0 <= i < j < after.layers@.len() implies (
    #[trigger] after.layers@[i]).output@ != (#[trigger] after.layers@[j]).output@ by {
        assert(after.layers@[i].output@ == before.layers@[i].output@);
        assert(after.layers@[j].output@ == before.layers@[j].output@);
    }
    assert forall|i: int| 0 <= i < after.layers@.len() implies (
    #[trigger] after.layers@[i]).output@ != identity(n) by {
        assert(after.layers@[i].output@ == before.layers@[i].output@);
    }
    assert forall|i: int, c: int|
        0 <= i < after.layers@.len() && 0 <= c < after.layers@[i].children@.len() implies (
    #[trigger] after.layers@[i].children@[c]) < after.layers@.len() by {
        let edges = row_edges(tables, n, required, i as nat, count);
        assert(after.layers@[i].extends(before.layers@[i], edges));
        lemma_row_edges_in_bounds(tables, n, required, i as nat, count);
        if c < before.layers@[i].children@.len() {
            assert(after.layers@[i].children@[c] == before.layers@[i].children@[c]);
        } else {
            assert(after.layers@[i].children@[c] == edges[c - before.layers@[i].children@.len()]);
        }
    }
}

} // verus!
