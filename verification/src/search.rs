//! The search for a chain of layers that turns the identity into the target,
//! by iterative deepening over the composability graph.

use crate::cache::{
    key_index, lemma_stored_keeps, lemma_touched_keeps, stored, touched, value_of, CacheManager,
    PositionView,
};
use crate::config::Config;
use crate::layers::{Layer, Layers};
use crate::vector::{
    compose, copy_table, identity, identity_table, in_range, lemma_in_range_facts, same_table,
};
use vstd::prelude::*;

verus! {

/// The layers that may be applied next: every layer at the start, the
/// children of the layer applied last afterwards.
pub open spec fn successors(layers: Seq<Layer>, last: Option<usize>) -> Seq<usize> {
    match last {
        None => Seq::new(layers.len(), |i: int| i as usize),
        Some(parent) => layers[parent as int].children@,
    }
}

/// The state that is reached from `state` by applying layer `next`.
pub open spec fn step(layers: Seq<Layer>, state: Seq<u8>, next: usize) -> Seq<u8> {
    compose(layers[next as int].output@, state)
}

/// `path` is a chain that may be applied from `state` after `last`, each
/// layer a successor of the one before, and it ends in `target`.
pub open spec fn follows(
    layers: Seq<Layer>,
    state: Seq<u8>,
    last: Option<usize>,
    path: Seq<usize>,
    target: Seq<u8>,
) -> bool
    decreases path.len(),
{
    if path.len() == 0 {
        state == target
    } else {
        &&& successors(layers, last).contains(path[0])
        &&& follows(layers, step(layers, state, path[0]), Some(path[0]), path.drop_first(), target)
    }
}

/// Some chain of exactly `depth` layers leads from `state` after `last` to
/// `target`.
pub open spec fn feasible(
    layers: Seq<Layer>,
    state: Seq<u8>,
    last: Option<usize>,
    depth: nat,
    target: Seq<u8>,
) -> bool {
    exists|path: Seq<usize>|
        path.len() == depth && #[trigger] follows(layers, state, last, path, target)
}

/// The successor at place `j` starts a chain of `depth` layers that leads to
/// `target`.
pub open spec fn opens(
    layers: Seq<Layer>,
    state: Seq<u8>,
    last: Option<usize>,
    depth: nat,
    target: Seq<u8>,
    j: int,
) -> bool {
    &&& 0 <= j < successors(layers, last).len()
    &&& depth >= 1
    &&& feasible(
        layers,
        step(layers, state, successors(layers, last)[j]),
        Some(successors(layers, last)[j]),
        (depth - 1) as nat,
        target,
    )
}

/// The first place among the successors that starts such a chain.
pub open spec fn first_open(
    layers: Seq<Layer>,
    state: Seq<u8>,
    last: Option<usize>,
    depth: nat,
    target: Seq<u8>,
) -> int {
    choose|j: int|
        opens(layers, state, last, depth, target, j) && forall|i: int|
            0 <= i < j ==> !opens(layers, state, last, depth, target, i)
}

/// The chain that a depth-first traversal meets first: at every step the
/// first successor from which the target can still be reached.
pub open spec fn first_path(
    layers: Seq<Layer>,
    state: Seq<u8>,
    last: Option<usize>,
    depth: nat,
    target: Seq<u8>,
) -> Seq<usize>
    decreases depth,
{
    if depth == 0 {
        Seq::empty()
    } else {
        let next = successors(layers, last)[first_open(layers, state, last, depth, target)];
        seq![next] + first_path(
            layers,
            step(layers, state, next),
            Some(next),
            (depth - 1) as nat,
            target,
        )
    }
}

/// Every entry of the cache that says "leads nowhere" is right.
pub open spec fn sound(entries: Seq<(PositionView, bool)>, layers: Seq<Layer>, target: Seq<u8>)
    -> bool {
    forall|i: int|
        0 <= i < entries.len() && (#[trigger] entries[i]).1 ==> !feasible(
            layers,
            entries[i].0.0,
            Some(entries[i].0.1),
            entries[i].0.2 as nat,
            target,
        )
}

/// How a search ended.
#[derive(Clone, Debug, PartialEq, Eq)]
pub enum SearchOutcome {
    /// The indices of the layers of the shortest chain, in the order in
    /// which they are applied.
    Found(Vec<usize>),
    /// No chain of any length up to the limit leads to the target.
    Exhausted,
    /// The limit was zero, so that no chain was tried.
    NotAttempted,
}

/// With no layer left to apply, the target is reached exactly when the state
/// is the target.
pub proof fn lemma_feasible_zero(
    layers: Seq<Layer>,
    state: Seq<u8>,
    last: Option<usize>,
    target: Seq<u8>,
)
    ensures
        feasible(layers, state, last, 0, target) <==> state == target,
{
    if state == target {
        assert(follows(layers, state, last, Seq::<usize>::empty(), target));
    }
}

/// With layers left to apply, the target can be reached exactly when some
/// successor opens a chain to it.
pub proof fn lemma_feasible_unfold(
    layers: Seq<Layer>,
    state: Seq<u8>,
    last: Option<usize>,
    depth: nat,
    target: Seq<u8>,
)
    requires
        depth >= 1,
    ensures
        feasible(layers, state, last, depth, target) <==> exists|j: int|
            opens(layers, state, last, depth, target, j),
{
    if feasible(layers, state, last, depth, target) {
        let path = choose|path: Seq<usize>|
            path.len() == depth && #[trigger] follows(layers, state, last, path, target);
        let nexts = successors(layers, last);
        let j = choose|j: int| 0 <= j < nexts.len() && nexts[j] == path[0];
        assert(follows(
            layers,
            step(layers, state, nexts[j]),
            Some(nexts[j]),
            path.drop_first(),
            target,
        ));
        assert(opens(layers, state, last, depth, target, j));
    }
    if exists|j: int| opens(layers, state, last, depth, target, j) {
        let j = choose|j: int| opens(layers, state, last, depth, target, j);
        let next = successors(layers, last)[j];
        let rest = choose|rest: Seq<usize>|
            rest.len() == depth - 1 && #[trigger] follows(
                layers,
                step(layers, state, next),
                Some(next),
                rest,
                target,
            );
        let path = seq![next] + rest;
        assert(path.drop_first() == rest);
        assert(path[0] == next);
        assert(follows(layers, state, last, path, target));
    }
}

/// Where place `j` opens a chain and no place before it does, the first chain
/// starts with the successor at `j` and goes on with the first chain from
/// there.
pub proof fn lemma_first_path_unfold(
    layers: Seq<Layer>,
    state: Seq<u8>,
    last: Option<usize>,
    depth: nat,
    target: Seq<u8>,
    j: int,
)
    requires
        opens(layers, state, last, depth, target, j),
        forall|i: int| 0 <= i < j ==> !opens(layers, state, last, depth, target, i),
    ensures
        first_open(layers, state, last, depth, target) == j,
        first_path(layers, state, last, depth, target) == seq![successors(layers, last)[j]]
            + first_path(
            layers,
            step(layers, state, successors(layers, last)[j]),
            Some(successors(layers, last)[j]),
            (depth - 1) as nat,
            target,
        ),
{
    let c = first_open(layers, state, last, depth, target);
    assert(opens(layers, state, last, depth, target, c) && forall|i: int|
        0 <= i < c ==> !opens(layers, state, last, depth, target, i));
    if c < j {
        assert(!opens(layers, state, last, depth, target, c));
    }
    if j < c {
        assert(!opens(layers, state, last, depth, target, j));
    }
}

/// The first chain is a chain: where the target can be reached with `depth`
/// layers, the first chain has `depth` layers, each a successor of the one
/// before, and ends in the target.
pub proof fn lemma_first_path_follows(
    layers: Seq<Layer>,
    state: Seq<u8>,
    last: Option<usize>,
    depth: nat,
    target: Seq<u8>,
)
    requires
        feasible(layers, state, last, depth, target),
    ensures
        first_path(layers, state, last, depth, target).len() == depth,
        follows(layers, state, last, first_path(layers, state, last, depth, target), target),
    decreases depth,
{
    if depth == 0 {
        lemma_feasible_zero(layers, state, last, target);
    } else {
        lemma_feasible_unfold(layers, state, last, depth, target);
        let j = lemma_least_open(layers, state, last, depth, target);
        lemma_first_path_unfold(layers, state, last, depth, target, j);
        let next = successors(layers, last)[j];
        let rest = first_path(
            layers,
            step(layers, state, next),
            Some(next),
            (depth - 1) as nat,
            target,
        );
        lemma_first_path_follows(
            layers,
            step(layers, state, next),
            Some(next),
            (depth - 1) as nat,
            target,
        );
        let path = first_path(layers, state, last, depth, target);
        assert(path == seq![next] + rest);
        assert(path.drop_first() == rest);
        assert(path[0] == next);
    }
}

/// The least place that opens a chain, where some place does.
proof fn lemma_least_open(
    layers: Seq<Layer>,
    state: Seq<u8>,
    last: Option<usize>,
    depth: nat,
    target: Seq<u8>,
) -> (j: int)
    requires
        exists|j: int| opens(layers, state, last, depth, target, j),
    ensures
        opens(layers, state, last, depth, target, j),
        forall|i: int| 0 <= i < j ==> !opens(layers, state, last, depth, target, i),
{
    let any = choose|j: int| opens(layers, state, last, depth, target, j);
    lemma_least_open_below(layers, state, last, depth, target, any)
}

/// The least place that opens a chain, at or below a place that does.
proof fn lemma_least_open_below(
    layers: Seq<Layer>,
    state: Seq<u8>,
    last: Option<usize>,
    depth: nat,
    target: Seq<u8>,
    bound: int,
) -> (j: int)
    requires
        opens(layers, state, last, depth, target, bound),
    ensures
        opens(layers, state, last, depth, target, j),
        forall|i: int| 0 <= i < j ==> !opens(layers, state, last, depth, target, i),
    decreases bound,
{
    if forall|i: int| 0 <= i < bound ==> !opens(layers, state, last, depth, target, i) {
        bound
    } else {
        let i = choose|i: int| 0 <= i < bound && opens(layers, state, last, depth, target, i);
        lemma_least_open_below(layers, state, last, depth, target, i)
    }
}

/// A look at a key leaves a sound cache sound.
proof fn lemma_sound_touched(
    entries: Seq<(PositionView, bool)>,
    key: PositionView,
    layers: Seq<Layer>,
    target: Seq<u8>,
)
    requires
        sound(entries, layers, target),
    ensures
        sound(touched(entries, key), layers, target),
        value_of(entries, key) == Some(true) ==> !feasible(
            layers,
            key.0,
            Some(key.1),
            key.2 as nat,
            target,
        ),
{
    let after = touched(entries, key);
    assert forall|i: int| 0 <= i < after.len() && (#[trigger] after[i]).1 implies !feasible(
        layers,
        after[i].0.0,
        Some(after[i].0.1),
        after[i].0.2 as nat,
        target,
    ) by {
        lemma_touched_keeps(entries, key, i);
        let k = choose|k: int| 0 <= k < entries.len() && entries[k] == after[i];
        assert(entries[k].1);
    }
    if value_of(entries, key) == Some(true) {
        let at = key_index(entries, key);
        assert(entries[at].1);
    }
}

/// Recording a position that leads nowhere leaves a sound cache sound.
proof fn lemma_sound_stored(
    entries: Seq<(PositionView, bool)>,
    limit: nat,
    key: PositionView,
    layers: Seq<Layer>,
    target: Seq<u8>,
)
    requires
        limit > 0,
        sound(entries, layers, target),
        !feasible(layers, key.0, Some(key.1), key.2 as nat, target),
    ensures
        sound(stored(entries, limit, key, true), layers, target),
{
    let after = stored(entries, limit, key, true);
    assert forall|i: int| 0 <= i < after.len() && (#[trigger] after[i]).1 implies !feasible(
        layers,
        after[i].0.0,
        Some(after[i].0.1),
        after[i].0.2 as nat,
        target,
    ) by {
        lemma_stored_keeps(entries, limit, key, true, i);
        if after[i] != (key, true) {
            let k = choose|k: int| 0 <= k < entries.len() && entries[k] == after[i];
            assert(entries[k].1);
        }
    }
}

/// The layer that was applied last at `level` of the work stack.
spec fn last_at(path: Seq<usize>, level: int) -> Option<usize> {
    if level == 0 {
        None
    } else {
        Some(path[level - 1])
    }
}

/// The successors at `level` of the work stack.
spec fn nexts_at(graph: Seq<Layer>, path: Seq<usize>, level: int) -> Seq<usize> {
    successors(graph, last_at(path, level))
}

/// The successor at place `j` of `level` opens a chain to the target.
spec fn opens_at(
    graph: Seq<Layer>,
    target: Seq<u8>,
    depth: nat,
    path: Seq<usize>,
    states: Seq<Vec<u8>>,
    level: int,
    j: int,
) -> bool {
    opens(graph, states[level]@, last_at(path, level), (depth - level) as nat, target, j)
}

/// The layer at `level` of the path is the successor under the cursor of
/// that level, and leads to the state of the next level.
spec fn linked_at(
    graph: Seq<Layer>,
    path: Seq<usize>,
    states: Seq<Vec<u8>>,
    cursors: Seq<usize>,
    level: int,
) -> bool {
    &&& cursors[level] < nexts_at(graph, path, level).len()
    &&& path[level] == nexts_at(graph, path, level)[cursors[level] as int]
    &&& path[level] < graph.len()
    &&& level + 1 < states.len() ==> states[level + 1]@ == step(
        graph,
        states[level]@,
        path[level],
    )
}

/// The work stack of a traversal for chains of `depth` layers. Level `i`
/// holds the state reached by the first `i` layers of `path` and a cursor
/// into the successors at that state: the successor in progress below the
/// top, the next one to try at the top. Every successor before a cursor has
/// been found to open no chain.
#[verifier::opaque]
spec fn stack_ok(
    graph: Seq<Layer>,
    target: Seq<u8>,
    n: nat,
    depth: nat,
    path: Seq<usize>,
    states: Seq<Vec<u8>>,
    cursors: Seq<usize>,
) -> bool {
    &&& path.len() < depth
    &&& states.len() == path.len() + 1
    &&& cursors.len() == depth
    &&& forall|i: int| 0 <= i <= path.len() ==> in_range((#[trigger] states[i])@, n)
    &&& forall|i: int|
        0 <= i <= path.len() ==> #[trigger] cursors[i] <= nexts_at(graph, path, i).len()
    &&& forall|i: int|
        0 <= i < path.len() ==> #[trigger] linked_at(graph, path, states, cursors, i)
    &&& forall|i: int| path.len() < i < depth ==> #[trigger] cursors[i] == 0
    &&& forall|i: int, j: int|
        0 <= i <= path.len() && 0 <= j < cursors[i] ==> !#[trigger] opens_at(
            graph,
            target,
            depth,
            path,
            states,
            i,
            j,
        )
}

/// The cursors read as the digits of one number, the first level the most
/// significant: it grows with every step of the traversal.
spec fn digits_value(cursors: Seq<usize>, base: nat) -> nat
    decreases cursors.len(),
{
    if cursors.len() == 0 {
        0
    } else {
        (digits_value(cursors.drop_last(), base) * base + cursors.last()) as nat
    }
}

/// The number that no reading of `len` digits below `base` reaches.
spec fn digits_limit(len: nat, base: nat) -> nat
    decreases len,
{
    if len == 0 {
        1
    } else {
        digits_limit((len - 1) as nat, base) * base
    }
}

/// A reading of digits below the base stays below the limit.
proof fn lemma_digits_bound(cursors: Seq<usize>, base: nat)
    requires
        forall|i: int| 0 <= i < cursors.len() ==> #[trigger] cursors[i] < base,
    ensures
        digits_value(cursors, base) < digits_limit(cursors.len(), base),
    decreases cursors.len(),
{
    if cursors.len() > 0 {
        let front = cursors.drop_last();
        lemma_digits_bound(front, base);
        let high = digits_value(front, base);
        let limit = digits_limit(front.len(), base);
        assert(high * base + cursors.last() < limit * base) by (nonlinear_arith)
            requires
                high < limit,
                cursors.last() < base,
        ;
    }
}

/// A reading grows when the digit at `at` grows, whatever becomes of the
/// digits behind it, as long as those were below the base.
proof fn lemma_digits_grow(before: Seq<usize>, after: Seq<usize>, base: nat, at: int)
    requires
        before.len() == after.len(),
        0 <= at < before.len(),
        forall|i: int| 0 <= i < at ==> before[i] == after[i],
        before[at] < after[at],
        forall|i: int| at < i < before.len() ==> #[trigger] before[i] < base,
    ensures
        digits_value(before, base) < digits_value(after, base),
    decreases before.len(),
{
    if at == before.len() - 1 {
        assert(before.drop_last() =~= after.drop_last());
    } else {
        lemma_digits_grow(before.drop_last(), after.drop_last(), base, at);
        let low = digits_value(before.drop_last(), base);
        let high = digits_value(after.drop_last(), base);
        assert(low * base + before.last() < high * base + after.last()) by (nonlinear_arith)
            requires
                low < high,
                before.last() < base,
                after.last() >= 0,
        ;
    }
}

/// A stack with the start state alone and every cursor at the front.
proof fn lemma_stack_start(
    graph: Seq<Layer>,
    target: Seq<u8>,
    n: nat,
    depth: nat,
    start: Vec<u8>,
    cursors: Seq<usize>,
)
    requires
        depth >= 1,
        in_range(start@, n),
        cursors.len() == depth,
        forall|i: int| 0 <= i < depth ==> #[trigger] cursors[i] == 0,
    ensures
        stack_ok(graph, target, n, depth, Seq::empty(), seq![start], cursors),
{
    reveal(stack_ok);
}

/// What the traversal reads off the top of the stack.
proof fn lemma_stack_top(
    graph: Seq<Layer>,
    target: Seq<u8>,
    n: nat,
    depth: nat,
    path: Seq<usize>,
    states: Seq<Vec<u8>>,
    cursors: Seq<usize>,
    width: nat,
)
    requires
        stack_ok(graph, target, n, depth, path, states, cursors),
        graph.len() <= width,
        forall|i: int| 0 <= i < graph.len() ==> (#[trigger] graph[i]).children@.len() <= width,
    ensures
        path.len() < depth,
        states.len() == path.len() + 1,
        cursors.len() == depth,
        in_range(states[path.len() as int]@, n),
        cursors[path.len() as int] <= nexts_at(graph, path, path.len() as int).len(),
        path.len() > 0 ==> path[path.len() - 1] < graph.len(),
        nexts_at(graph, path, path.len() as int).len() <= width,
        forall|i: int| 0 <= i < depth ==> #[trigger] cursors[i] < width + 1,
        digits_value(cursors, width + 1) < digits_limit(depth, width + 1),
{
    reveal(stack_ok);
    let top = path.len() as int;
    assert(in_range(states[top]@, n));
    if top > 0 {
        assert(linked_at(graph, path, states, cursors, top - 1));
    }
    assert forall|i: int| 0 <= i < depth implies #[trigger] cursors[i] < width + 1 by {
        if i <= top {
            assert(cursors[i] <= nexts_at(graph, path, i).len());
            if i > 0 {
                assert(linked_at(graph, path, states, cursors, i - 1));
            }
        }
    }
    lemma_digits_bound(cursors, width + 1);
}

/// The traversal passes over the successor under the top cursor, which
/// opens no chain.
proof fn lemma_stack_advance(
    graph: Seq<Layer>,
    target: Seq<u8>,
    n: nat,
    depth: nat,
    path: Seq<usize>,
    states: Seq<Vec<u8>>,
    cursors: Seq<usize>,
    width: usize,
)
    requires
        stack_ok(graph, target, n, depth, path, states, cursors),
        graph.len() <= width,
        forall|i: int| 0 <= i < graph.len() ==> (#[trigger] graph[i]).children@.len() <= width,
        cursors[path.len() as int] < nexts_at(graph, path, path.len() as int).len(),
        !opens_at(
            graph,
            target,
            depth,
            path,
            states,
            path.len() as int,
            cursors[path.len() as int] as int,
        ),
    ensures
        stack_ok(
            graph,
            target,
            n,
            depth,
            path,
            states,
            cursors.update(path.len() as int, (cursors[path.len() as int] + 1) as usize),
        ),
        digits_value(cursors, (width + 1) as nat) < digits_value(
            cursors.update(path.len() as int, (cursors[path.len() as int] + 1) as usize),
            (width + 1) as nat,
        ),
{
    lemma_stack_top(graph, target, n, depth, path, states, cursors, width as nat);
    reveal(stack_ok);
    let top = path.len() as int;
    let after = cursors.update(top, (cursors[top] + 1) as usize);
    assert(cursors[top] < width);
    lemma_digits_grow(cursors, after, (width + 1) as nat, top);
    assert forall|i: int| 0 <= i < path.len() implies #[trigger] linked_at(
        graph,
        path,
        states,
        after,
        i,
    ) by {
        assert(linked_at(graph, path, states, cursors, i));
    }
    assert forall|i: int, j: int| 0 <= i <= path.len() && 0 <= j < after[i] implies !#[trigger] opens_at(
        graph,
        target,
        depth,
        path,
        states,
        i,
        j,
    ) by {
        if i < top || j < cursors[top] {
            assert(!opens_at(graph, target, depth, path, states, i, j));
        }
    }
}

/// The traversal goes down to the state that the successor under the top
/// cursor leads to.
proof fn lemma_stack_push(
    graph: Seq<Layer>,
    target: Seq<u8>,
    n: nat,
    depth: nat,
    path: Seq<usize>,
    states: Seq<Vec<u8>>,
    cursors: Seq<usize>,
    next: usize,
    reached: Vec<u8>,
)
    requires
        stack_ok(graph, target, n, depth, path, states, cursors),
        path.len() + 1 < depth,
        cursors[path.len() as int] < nexts_at(graph, path, path.len() as int).len(),
        next == nexts_at(graph, path, path.len() as int)[cursors[path.len() as int] as int],
        next < graph.len(),
        reached@ == step(graph, states[path.len() as int]@, next),
        in_range(reached@, n),
    ensures
        stack_ok(graph, target, n, depth, path.push(next), states.push(reached), cursors),
{
    reveal(stack_ok);
    let top = path.len() as int;
    let longer = path.push(next);
    let deeper = states.push(reached);
    assert forall|i: int| 0 <= i <= top + 1 implies last_at(longer, i) == if i <= top {
        last_at(path, i)
    } else {
        Some(next)
    } by {}
    assert forall|i: int| 0 <= i <= longer.len() implies in_range((#[trigger] deeper[i])@, n) by {
        if i <= top {
            assert(deeper[i] == states[i]);
        }
    }
    assert forall|i: int| 0 <= i <= longer.len() implies #[trigger] cursors[i] <= nexts_at(
        graph,
        longer,
        i,
    ).len() by {
        if i <= top {
            assert(nexts_at(graph, longer, i) == nexts_at(graph, path, i));
        }
    }
    assert forall|i: int| 0 <= i < longer.len() implies #[trigger] linked_at(
        graph,
        longer,
        deeper,
        cursors,
        i,
    ) by {
        assert(nexts_at(graph, longer, i) == nexts_at(graph, path, i));
        assert(deeper[i] == states[i]);
        if i < top {
            assert(linked_at(graph, path, states, cursors, i));
            assert(deeper[i + 1] == states[i + 1]);
        }
    }
    assert forall|i: int, j: int|
        0 <= i <= longer.len() && 0 <= j < cursors[i] implies !#[trigger] opens_at(
        graph,
        target,
        depth,
        longer,
        deeper,
        i,
        j,
    ) by {
        if i <= top {
            assert(deeper[i] == states[i]);
            assert(!opens_at(graph, target, depth, path, states, i, j));
        }
    }
}

/// The traversal comes back from a state whose successors all open no
/// chain: the state leads nowhere, and the successor in progress one level
/// up is passed over.
proof fn lemma_stack_pop(
    graph: Seq<Layer>,
    target: Seq<u8>,
    n: nat,
    depth: nat,
    path: Seq<usize>,
    states: Seq<Vec<u8>>,
    cursors: Seq<usize>,
    width: usize,
)
    requires
        stack_ok(graph, target, n, depth, path, states, cursors),
        graph.len() <= width,
        forall|i: int| 0 <= i < graph.len() ==> (#[trigger] graph[i]).children@.len() <= width,
        path.len() > 0,
        cursors[path.len() as int] == nexts_at(graph, path, path.len() as int).len(),
    ensures
        !feasible(
            graph,
            states[path.len() as int]@,
            Some(path[path.len() - 1]),
            (depth - path.len()) as nat,
            target,
        ),
        cursors[path.len() - 1] < usize::MAX,
        stack_ok(
            graph,
            target,
            n,
            depth,
            path.drop_last(),
            states.drop_last(),
            cursors.update(path.len() as int, 0).update(
                path.len() - 1,
                (cursors[path.len() - 1] + 1) as usize,
            ),
        ),
        digits_value(cursors, (width + 1) as nat) < digits_value(
            cursors.update(path.len() as int, 0).update(
                path.len() - 1,
                (cursors[path.len() - 1] + 1) as usize,
            ),
            (width + 1) as nat,
        ),
{
    lemma_stack_top(graph, target, n, depth, path, states, cursors, width as nat);
    reveal(stack_ok);
    let top = path.len() as int;
    let shorter = path.drop_last();
    let higher = states.drop_last();
    let after = cursors.update(top, 0).update(top - 1, (cursors[top - 1] + 1) as usize);
    let left = (depth - top) as nat;
    assert(last_at(path, top) == Some(path[top - 1]));
    assert forall|j: int| !opens(graph, states[top]@, last_at(path, top), left, target, j) by {
        if 0 <= j < cursors[top] {
            assert(!opens_at(graph, target, depth, path, states, top, j));
        }
    }
    lemma_feasible_unfold(graph, states[top]@, last_at(path, top), left, target);
    assert(linked_at(graph, path, states, cursors, top - 1));
    assert(cursors[top - 1] < width) by {
        if top - 1 > 0 {
            assert(linked_at(graph, path, states, cursors, top - 2));
        }
    }
    lemma_digits_grow(cursors, after, (width + 1) as nat, top - 1);
    assert forall|i: int| 0 <= i < top implies last_at(shorter, i) == last_at(path, i) by {}
    assert forall|i: int| 0 <= i <= shorter.len() implies in_range((#[trigger] higher[i])@, n) by {
        assert(higher[i] == states[i]);
    }
    assert forall|i: int| 0 <= i <= shorter.len() implies #[trigger] after[i] <= nexts_at(
        graph,
        shorter,
        i,
    ).len() by {
        assert(nexts_at(graph, shorter, i) == nexts_at(graph, path, i));
        assert(cursors[i] <= nexts_at(graph, path, i).len());
    }
    assert forall|i: int| 0 <= i < shorter.len() implies #[trigger] linked_at(
        graph,
        shorter,
        higher,
        after,
        i,
    ) by {
        assert(linked_at(graph, path, states, cursors, i));
        assert(nexts_at(graph, shorter, i) == nexts_at(graph, path, i));
        assert(higher[i] == states[i]);
        assert(higher[i + 1] == states[i + 1]);
    }
    assert forall|i: int, j: int|
        0 <= i <= shorter.len() && 0 <= j < after[i] implies !#[trigger] opens_at(
        graph,
        target,
        depth,
        shorter,
        higher,
        i,
        j,
    ) by {
        assert(higher[i] == states[i]);
        if i < top - 1 || j < cursors[top - 1] {
            assert(!opens_at(graph, target, depth, path, states, i, j));
        } else {
            assert(nexts_at(graph, path, i)[j] == path[top - 1]);
            assert(states[top]@ == step(graph, states[i]@, path[top - 1]));
        }
    }
}

/// The chain on a full work stack is the first chain: at every level the
/// successor in progress opens a chain, and none before it does.
proof fn lemma_stack_path(
    graph: Seq<Layer>,
    target: Seq<u8>,
    depth: nat,
    path: Seq<usize>,
    states: Seq<Vec<u8>>,
    cursors: Seq<usize>,
    level: int,
)
    requires
        path.len() == depth,
        states.len() == depth,
        0 <= level < depth,
        forall|i: int| 0 <= i < depth ==> #[trigger] linked_at(graph, path, states, cursors, i),
        step(graph, states[depth - 1]@, path[depth - 1]) == target,
        forall|i: int, j: int|
            0 <= i < depth && 0 <= j < cursors[i] ==> !#[trigger] opens_at(
                graph,
                target,
                depth,
                path,
                states,
                i,
                j,
            ),
    ensures
        feasible(graph, states[level]@, last_at(path, level), (depth - level) as nat, target),
        first_path(graph, states[level]@, last_at(path, level), (depth - level) as nat, target)
            == path.subrange(level, depth as int),
    decreases depth - level,
{
    let state = states[level]@;
    let last = last_at(path, level);
    let left = (depth - level) as nat;
    let at = cursors[level] as int;
    let next = path[level];
    assert(linked_at(graph, path, states, cursors, level));
    assert(next == successors(graph, last)[at]);
    assert(last_at(path, level + 1) == Some(next));
    if level == depth - 1 {
        lemma_feasible_zero(graph, target, Some(next), target);
        assert(first_path(graph, target, Some(next), 0, target) == Seq::<usize>::empty());
        assert(path.subrange(level + 1, depth as int) == Seq::<usize>::empty());
    } else {
        lemma_stack_path(graph, target, depth, path, states, cursors, level + 1);
        assert(states[level + 1]@ == step(graph, state, next));
    }
    assert(opens(graph, state, last, left, target, at));
    assert forall|j: int| 0 <= j < at implies !opens(graph, state, last, left, target, j) by {
        assert(!opens_at(graph, target, depth, path, states, level, j));
    }
    lemma_first_path_unfold(graph, state, last, left, target, at);
    lemma_feasible_unfold(graph, state, last, left, target);
    assert(path.subrange(level, depth as int) == seq![next] + path.subrange(
        level + 1,
        depth as int,
    ));
}

/// With one layer left, the successor under the top cursor leads to the
/// target: the path with that successor at its end is the first chain.
proof fn lemma_stack_found(
    graph: Seq<Layer>,
    target: Seq<u8>,
    n: nat,
    depth: nat,
    path: Seq<usize>,
    states: Seq<Vec<u8>>,
    cursors: Seq<usize>,
    next: usize,
)
    requires
        stack_ok(graph, target, n, depth, path, states, cursors),
        path.len() + 1 == depth,
        cursors[path.len() as int] < nexts_at(graph, path, path.len() as int).len(),
        next == nexts_at(graph, path, path.len() as int)[cursors[path.len() as int] as int],
        next < graph.len(),
        step(graph, states[path.len() as int]@, next) == target,
    ensures
        feasible(graph, states[0]@, None, depth, target),
        first_path(graph, states[0]@, None, depth, target) == path.push(next),
{
    reveal(stack_ok);
    let top = path.len() as int;
    let full = path.push(next);
    assert forall|i: int| 0 <= i <= top implies last_at(full, i) == last_at(path, i) by {}
    assert forall|i: int| 0 <= i < depth implies #[trigger] linked_at(
        graph,
        full,
        states,
        cursors,
        i,
    ) by {
        assert(nexts_at(graph, full, i) == nexts_at(graph, path, i));
        if i < top {
            assert(linked_at(graph, path, states, cursors, i));
        }
    }
    assert forall|i: int, j: int| 0 <= i < depth && 0 <= j < cursors[i] implies !#[trigger] opens_at(
        graph,
        target,
        depth,
        full,
        states,
        i,
        j,
    ) by {
        assert(!opens_at(graph, target, depth, path, states, i, j));
    }
    lemma_stack_path(graph, target, depth, full, states, cursors, 0);
    assert(full.subrange(0, depth as int) == full);
}

/// The length of the longest list of successors in the graph.
fn widest(layers: &Layers) -> (width: usize)
    ensures
        layers.layers@.len() <= width,
        forall|i: int|
            0 <= i < layers.layers@.len() ==> (#[trigger] layers.layers@[i]).children@.len()
                <= width,
{
    let mut width: usize = layers.layers.len();
    let mut i: usize = 0;
    while i < layers.layers.len()
        invariant
            i <= layers.layers@.len(),
            layers.layers@.len() <= width,
            forall|q: int| 0 <= q < i ==> (#[trigger] layers.layers@[q]).children@.len() <= width,
        decreases layers.layers@.len() - i,
    {
        if layers.layers[i].children.len() > width {
            width = layers.layers[i].children.len();
        }
        i += 1;
    }
    width
}

/// Looks, depth first and with a work stack of its own, for a chain of
/// exactly `depth` layers from `start` to the target, and passes over the
/// positions that the cache knows to lead nowhere.
fn descend(
    layers: &Layers,
    config: &Config,
    start: &Vec<u8>,
    depth: u8,
    cache: &mut CacheManager,
) -> (found: Option<Vec<usize>>)
    requires
        layers.linked(config.states as nat),
        in_range(start@, config.states as nat),
        depth >= 1,
        old(cache).limit() > 0,
        sound(old(cache).entries(), layers.layers@, config.target@),
    ensures
        final(cache).limit() == old(cache).limit(),
        sound(final(cache).entries(), layers.layers@, config.target@),
        match found {
            Some(path) => {
                &&& feasible(layers.layers@, start@, None, depth as nat, config.target@)
                &&& path@ == first_path(layers.layers@, start@, None, depth as nat, config.target@)
            },
            None => !feasible(layers.layers@, start@, None, depth as nat, config.target@),
        },
{
    let ghost graph = layers.layers@;
    let ghost target = config.target@;
    let ghost n = config.states as nat;
    let ghost d = depth as nat;
    let width: usize = widest(layers);
    let ghost base = (width + 1) as nat;

    let mut cursors: Vec<usize> = Vec::new();
    let mut filled: u8 = 0;
    while filled < depth
        invariant
            filled <= depth,
            cursors@.len() == filled,
            forall|i: int| 0 <= i < filled ==> #[trigger] cursors@[i] == 0,
        decreases depth - filled,
    {
        cursors.push(0);
        filled += 1;
    }
    let mut path: Vec<usize> = Vec::new();
    let mut states: Vec<Vec<u8>> = Vec::new();
    states.push(copy_table(start));
    proof {
        lemma_stack_start(graph, target, n, d, states@[0], cursors@);
        assert(states@ == seq![states@[0]]);
    }

    loop
        invariant
            graph == layers.layers@,
            target == config.target@,
            n == config.states,
            d == depth,
            base == width + 1,
            layers.linked(n),
            graph.len() <= width,
            forall|i: int| 0 <= i < graph.len() ==> (#[trigger] graph[i]).children@.len() <= width,
            states@.len() > 0,
            states@[0]@ == start@,
            stack_ok(graph, target, n, d, path@, states@, cursors@),
            cache.limit() == old(cache).limit(),
            cache.limit() > 0,
            sound(cache.entries(), graph, target),
        decreases digits_limit(d, base) - digits_value(cursors@, base), d - path@.len(),
    {
        proof {
            lemma_stack_top(graph, target, n, d, path@, states@, cursors@, width as nat);
        }
        let top: usize = path.len();
        let last: Option<usize> = if top == 0 {
            None
        } else {
            Some(path[top - 1])
        };
        assert(last == last_at(path@, top as int));
        let ghost nexts = nexts_at(graph, path@, top as int);
        let count: usize = match last {
            None => layers.layers.len(),
            Some(parent) => layers.layers[parent].children.len(),
        };
        assert(count == nexts.len());
        let cursor: usize = cursors[top];
        let left: u8 = depth - top as u8;
        let ghost old_cursors = cursors@;
        let ghost old_path = path@;
        let ghost old_states = states@;
        if cursor == count {
            if top == 0 {
                proof {
                    reveal(stack_ok);
                    assert forall|j: int| !opens(graph, start@, None, d, target, j) by {
                        if 0 <= j < cursors@[0] {
                            assert(!opens_at(graph, target, d, path@, states@, 0, j));
                        }
                    }
                    lemma_feasible_unfold(graph, start@, None, d, target);
                }
                return None;
            }
            proof {
                lemma_stack_pop(graph, target, n, d, old_path, old_states, old_cursors, width);
            }
            let state: Vec<u8> = states.pop().unwrap();
            let parent: usize = path.pop().unwrap();
            let ghost entries = cache.entries();
            cache.record(&state, parent, left, true);
            cursors.set(top, 0);
            let below: usize = cursors[top - 1];
            cursors.set(top - 1, below + 1);
            proof {
                lemma_sound_stored(entries, cache.limit(), (state@, parent, left), graph, target);
                assert(path@ == old_path.drop_last());
                assert(states@ == old_states.drop_last());
                assert(cursors@ == old_cursors.update(top as int, 0).update(
                    top - 1,
                    (old_cursors[top - 1] + 1) as usize,
                ));
            }
        } else {
            let next: usize = match last {
                None => cursor,
                Some(parent) => layers.layers[parent].children[cursor],
            };
            assert(next == nexts[cursor as int]);
            assert(next < graph.len());
            proof {
                assert(in_range(graph[next as int].output@, n));
                lemma_in_range_facts(graph[next as int].output@, states@[top as int]@, n);
            }
            let reached: Vec<u8> = layers.layers[next].pass(&states[top]);
            let mut advance: bool = true;
            if left == 1 {
                proof {
                    lemma_feasible_zero(graph, reached@, Some(next), target);
                }
                if same_table(&reached, &config.target) {
                    proof {
                        lemma_stack_found(
                            graph,
                            target,
                            n,
                            d,
                            old_path,
                            old_states,
                            old_cursors,
                            next,
                        );
                    }
                    path.push(next);
                    return Some(path);
                }
            } else {
                let ghost entries = cache.entries();
                let known: Option<bool> = cache.lookup(&reached, next, left - 1);
                proof {
                    lemma_sound_touched(entries, (reached@, next, (left - 1) as u8), graph, target);
                }
                let skip: bool = match known {
                    Some(flag) => flag,
                    None => false,
                };
                if !skip {
                    advance = false;
                    proof {
                        lemma_stack_push(
                            graph,
                            target,
                            n,
                            d,
                            old_path,
                            old_states,
                            old_cursors,
                            next,
                            reached,
                        );
                    }
                    path.push(next);
                    states.push(reached);
                }
            }
            if advance {
                proof {
                    assert(!opens_at(
                        graph,
                        target,
                        d,
                        old_path,
                        old_states,
                        top as int,
                        cursor as int,
                    ));
                    lemma_stack_advance(graph, target, n, d, old_path, old_states, old_cursors, width);
                }
                cursors.set(top, cursor + 1);
            }
        }
        proof {
            lemma_stack_top(graph, target, n, d, path@, states@, cursors@, width as nat);
        }
    }
}

impl Layers {
    /// The target can be reached from the identity with exactly `depth`
    /// layers.
    pub open spec fn reachable(&self, config: Config, depth: nat) -> bool {
        feasible(self.layers@, identity(config.states as nat), None, depth, config.target@)
    }

    /// The chain of `depth` layers from the identity to the target that a
    /// depth-first traversal meets first.
    pub open spec fn first_chain(&self, config: Config, depth: nat) -> Seq<usize> {
        first_path(self.layers@, identity(config.states as nat), None, depth, config.target@)
    }

    /// Looks for a chain of exactly `depth` layers that turns the identity
    /// into the target, and returns the first one in depth-first order.
    pub fn search_depth(&self, config: &Config, depth: u8) -> (found: Option<Vec<usize>>)
        requires
            config.wf(),
            self.linked(config.states as nat),
        ensures
            found is Some <==> self.reachable(*config, depth as nat),
            found matches Some(path) ==> path@ == self.first_chain(*config, depth as nat),
    {
        let start: Vec<u8> = identity_table(config.states);
        if depth == 0 {
            proof {
                lemma_feasible_zero(self.layers@, start@, None, config.target@);
            }
            if same_table(&start, &config.target) {
                return Some(Vec::new());
            }
            return None;
        }
        let mut cache: CacheManager = CacheManager::new();
        descend(self, config, &start, depth, &mut cache)
    }

    /// Searches by iterative deepening, from one layer up to `max_depth`
    /// layers, for the shortest chain that turns the identity into the
    /// target. Positions that were found to lead nowhere are remembered in a
    /// cache that all depths share.
    pub fn search(&self, config: &Config, max_depth: u8) -> (outcome: SearchOutcome)
        requires
            config.wf(),
            self.linked(config.states as nat),
        ensures
            match outcome {
                SearchOutcome::Found(path) => {
                    &&& 1 <= path@.len() <= max_depth
                    &&& self.reachable(*config, path@.len())
                    &&& path@ == self.first_chain(*config, path@.len())
                    &&& forall|d: nat| 1 <= d < path@.len() ==> !self.reachable(*config, d)
                },
                SearchOutcome::Exhausted => {
                    &&& max_depth >= 1
                    &&& forall|d: nat| 1 <= d <= max_depth ==> !self.reachable(*config, d)
                },
                SearchOutcome::NotAttempted => max_depth == 0,
            },
    {
        if max_depth == 0 {
            return SearchOutcome::NotAttempted;
        }
        let start: Vec<u8> = identity_table(config.states);
        let mut cache: CacheManager = CacheManager::new();
        let mut depth: u8 = 1;
        loop
            invariant
                1 <= depth <= max_depth,
                config.wf(),
                self.linked(config.states as nat),
                start@ == identity(config.states as nat),
                cache.limit() > 0,
                sound(cache.entries(), self.layers@, config.target@),
                forall|d: nat| 1 <= d < depth ==> !self.reachable(*config, d),
            decreases max_depth - depth,
        {
            match descend(self, config, &start, depth, &mut cache) {
                Some(path) => {
                    proof {
                        lemma_first_path_follows(
                            self.layers@,
                            start@,
                            None,
                            depth as nat,
                            config.target@,
                        );
                    }
                    return SearchOutcome::Found(path);
                },
                None => {},
            }
            if depth == max_depth {
                return SearchOutcome::Exhausted;
            }
            depth += 1;
        }
    }
}

} // verus!
