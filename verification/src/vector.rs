//! State vectors: tables of `n` signal strengths, each below `n`.

use std::collections::HashSet;
use vstd::prelude::*;

verus! {

/// The largest state space whose values fit a `u8`.
pub const MAX_STATES: usize = 256;

/// `v` has `n` entries and every entry is a value below `n`.
pub open spec fn in_range(v: Seq<u8>, n: nat) -> bool {
    &&& v.len() == n
    &&& forall|i: int| 0 <= i < v.len() ==> (#[trigger] v[i] as nat) < n
}

/// The table that maps every input to itself.
pub open spec fn identity(n: nat) -> Seq<u8> {
    Seq::new(n, |i: int| i as u8)
}

/// The table obtained by sending every entry of `input` through `table`.
pub open spec fn compose(table: Seq<u8>, input: Seq<u8>) -> Seq<u8> {
    Seq::new(input.len(), |i: int| table[input[i] as int])
}

/// The number of different values that occur in `v`.
pub open spec fn distinct_count(v: Seq<u8>) -> nat {
    v.to_set().len()
}

/// What a comparator emits: nothing when the side signal is stronger than the
/// back signal, the difference in subtract mode, the back signal otherwise.
pub open spec fn comparator_spec(back: u8, side: u8, mode: bool) -> u8 {
    if side > back {
        0
    } else if mode {
        (back - side) as u8
    } else {
        back
    }
}

/// The larger of two signals.
pub open spec fn stronger(a: u8, b: u8) -> u8 {
    if a >= b {
        a
    } else {
        b
    }
}

/// Simulates one comparator with the given back signal, side signal and mode
/// (`true` subtracts, `false` compares).
pub fn comparator(back: u8, side: u8, mode: bool) -> (out: u8)
    ensures
        out == comparator_spec(back, side, mode),
        out <= back,
{
    if side > back {
        return 0;
    } else if mode {
        return back - side;
    }
    back
}

/// Counts the different values in `output`.
pub fn distinct(output: &Vec<u8>) -> (count: usize)
    ensures
        count == distinct_count(output@),
        count <= output@.len(),
{
    broadcast use vstd::std_specs::hash::group_hash_axioms;

    let mut seen: HashSet<u8> = HashSet::new();
    let mut i: usize = 0;
    while i < output.len()
        invariant
            i <= output.len(),
            seen@ == output@.take(i as int).to_set(),
        decreases output.len() - i,
    {
        seen.insert(output[i]);
        proof {
            assert(output@.take(i + 1) == output@.take(i as int).push(output@[i as int]));
            output@.take(i as int).lemma_push_to_set_commute(output@[i as int]);
        }
        i += 1;
    }
    proof {
        assert(output@.take(i as int) == output@);
        output@.lemma_cardinality_of_set();
    }
    seen.len()
}

/// Builds the table that maps every input to itself.
pub fn identity_table(states: usize) -> (table: Vec<u8>)
    requires
        states <= MAX_STATES,
    ensures
        table@ == identity(states as nat),
{
    let mut table: Vec<u8> = Vec::new();
    let mut i: usize = 0;
    while i < states
        invariant
            i <= states <= MAX_STATES,
            table@ == identity(i as nat),
        decreases states - i,
    {
        table.push(i as u8);
        i += 1;
    }
    table
}

/// Tells whether two tables hold the same values in the same order.
pub fn same_table(a: &Vec<u8>, b: &Vec<u8>) -> (equal: bool)
    ensures
        equal == (a@ == b@),
{
    if a.len() != b.len() {
        return false;
    }
    let mut i: usize = 0;
    while i < a.len()
        invariant
            i <= a.len(),
            a.len() == b.len(),
            a@.take(i as int) == b@.take(i as int),
        decreases a.len() - i,
    {
        if a[i] != b[i] {
            return false;
        }
        proof {
            assert(a@.take(i + 1) == a@.take(i as int).push(a@[i as int]));
            assert(b@.take(i + 1) == b@.take(i as int).push(b@[i as int]));
        }
        i += 1;
    }
    proof {
        assert(a@.take(i as int) == a@);
        assert(b@.take(i as int) == b@);
    }
    true
}

/// Tells whether `table` has `states` entries, each a value below `states`.
pub fn is_in_range(table: &Vec<u8>, states: usize) -> (valid: bool)
    ensures
        valid == in_range(table@, states as nat),
{
    if table.len() != states {
        return false;
    }
    let mut i: usize = 0;
    while i < states
        invariant
            i <= states,
            states == table@.len(),
            forall|j: int| 0 <= j < i ==> (#[trigger] table@[j] as nat) < states,
        decreases states - i,
    {
        if table[i] as usize >= states {
            return false;
        }
        i += 1;
    }
    true
}

/// Makes a fresh copy of `table`.
pub fn copy_table(table: &Vec<u8>) -> (copy: Vec<u8>)
    ensures
        copy@ == table@,
{
    let mut copy: Vec<u8> = Vec::new();
    let mut i: usize = 0;
    while i < table.len()
        invariant
            i <= table.len(),
            copy@ == table@.take(i as int),
        decreases table.len() - i,
    {
        copy.push(table[i]);
        proof {
            assert(table@.take(i + 1) == table@.take(i as int).push(table@[i as int]));
        }
        i += 1;
    }
    proof {
        assert(table@.take(i as int) == table@);
    }
    copy
}

/// Sends every entry of `inputs` through `table` and leaves the result in
/// `buffer`, whose former contents are dropped.
pub fn compose_into(table: &Vec<u8>, inputs: &Vec<u8>, buffer: &mut Vec<u8>)
    requires
        forall|i: int| 0 <= i < inputs@.len() ==> (#[trigger] inputs@[i] as int) < table@.len(),
    ensures
        final(buffer)@ == compose(table@, inputs@),
{
    buffer.clear();
    let mut i: usize = 0;
    while i < inputs.len()
        invariant
            i <= inputs.len(),
            forall|j: int| 0 <= j < inputs@.len() ==> (#[trigger] inputs@[j] as int) < table@.len(),
            buffer@ == compose(table@, inputs@).take(i as int),
        decreases inputs.len() - i,
    {
        let value: u8 = table[inputs[i] as usize];
        buffer.push(value);
        proof {
            assert(compose(table@, inputs@).take(i + 1) == compose(table@, inputs@).take(
                i as int,
            ).push(value));
        }
        i += 1;
    }
    proof {
        assert(compose(table@, inputs@).take(i as int) == compose(table@, inputs@));
    }
}

/// A table in range has at most as many different values as it has entries,
/// and composing two tables in range gives a table in range.
pub proof fn lemma_in_range_facts(table: Seq<u8>, inputs: Seq<u8>, n: nat)
    requires
        in_range(table, n),
        in_range(inputs, n),
    ensures
        distinct_count(table) <= n,
        in_range(compose(table, inputs), n),
{
    table.lemma_cardinality_of_set();
    assert forall|i: int| 0 <= i < compose(table, inputs).len() implies (#[trigger] compose(
        table,
        inputs,
    )[i] as nat) < n by {
        let k: int = inputs[i] as int;
        assert((inputs[i] as nat) < n);
        assert((table[k] as nat) < n);
    }
}

} // verus!
