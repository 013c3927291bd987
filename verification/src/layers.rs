//! Layers: the tables that two comparators can compute, and the collection of
//! those that are worth keeping.

use crate::config::Config;
use crate::ledger::Ledger;
use crate::vector::{
    comparator, comparator_spec, compose, compose_into, copy_table, distinct, distinct_count,
    identity, identity_table, in_range, is_in_range, stronger, MAX_STATES,
};
use vstd::prelude::*;
use vstd::string::StringExecFns;

verus! {

/// The table of the layer whose input enters the side of one comparator,
/// fed from the back with `back`, and the back of another, fed from the side
/// with `side`.
pub open spec fn family_a(n: nat, side: u8, side_mode: bool, back: u8, back_mode: bool) -> Seq<u8> {
    Seq::new(
        n,
        |i: int|
            stronger(
                comparator_spec(i as u8, side, side_mode),
                comparator_spec(back, i as u8, back_mode),
            ),
    )
}

/// The table of the layer whose input enters the side of both comparators,
/// one comparing with `compare` and one subtracting from `subtract`.
pub open spec fn family_b(n: nat, compare: u8, subtract: u8) -> Seq<u8> {
    Seq::new(
        n,
        |i: int|
            stronger(
                comparator_spec(compare, i as u8, false),
                comparator_spec(subtract, i as u8, true),
            ),
    )
}

/// The text of one decimal digit.
pub open spec fn digit_text(d: nat) -> Seq<char> {
    if d == 0 {
        "0"@
    } else if d == 1 {
        "1"@
    } else if d == 2 {
        "2"@
    } else if d == 3 {
        "3"@
    } else if d == 4 {
        "4"@
    } else if d == 5 {
        "5"@
    } else if d == 6 {
        "6"@
    } else if d == 7 {
        "7"@
    } else if d == 8 {
        "8"@
    } else {
        "9"@
    }
}

/// The decimal text of `v`, without leading zeros.
pub open spec fn decimal(v: nat) -> Seq<char>
    decreases v,
{
    if v < 10 {
        digit_text(v)
    } else {
        decimal(v / 10) + digit_text(v % 10)
    }
}

/// The mark of a comparator in subtract mode.
pub open spec fn star(mode: bool) -> Seq<char> {
    if mode {
        "*"@
    } else {
        ""@
    }
}

/// The asterisk notation of a layer of the first family: the side signal, a
/// comma, the back signal and a semicolon, each signal with a star in front
/// when its comparator subtracts.
pub open spec fn notation_spec(side: u8, side_mode: bool, back: u8, back_mode: bool) -> Seq<char> {
    star(side_mode) + decimal(side as nat) + ","@ + star(back_mode) + decimal(back as nat) + ";"@
}

/// A single layer circuit.
#[derive(Clone, Debug)]
pub struct Layer {
    /// The output for each input.
    pub output: Vec<u8>,
    /// The number of different outputs.
    pub distinct: usize,
    /// The asterisk notation; empty where the layer has none.
    pub notation: String,
    /// The indices of the layers that are worth applying after this one.
    pub children: Vec<usize>,
    /// Whether the layer has children.
    pub valid_parent: bool,
}

/// The text of the digit `d`.
fn digit_str(d: u8) -> (text: &'static str)
    requires
        d < 10,
    ensures
        text@ == digit_text(d as nat),
{
    if d == 0 {
        "0"
    } else if d == 1 {
        "1"
    } else if d == 2 {
        "2"
    } else if d == 3 {
        "3"
    } else if d == 4 {
        "4"
    } else if d == 5 {
        "5"
    } else if d == 6 {
        "6"
    } else if d == 7 {
        "7"
    } else if d == 8 {
        "8"
    } else {
        "9"
    }
}

/// Appends the decimal text of `v` to `text`.
fn push_decimal(text: &mut String, v: u8)
    ensures
        final(text)@ == old(text)@ + decimal(v as nat),
    decreases v,
{
    if v >= 10 {
        push_decimal(text, v / 10);
    }
    text.append(digit_str(v % 10));
}

/// Appends a star to `text` when `mode` is set.
fn push_star(text: &mut String, mode: bool)
    ensures
        final(text)@ == old(text)@ + star(mode),
{
    if mode {
        text.append("*");
    } else {
        text.append("");
    }
}

impl Layer {
    /// The layer is a table over `n` states, its count of different outputs is
    /// the true one, and it is marked as a parent exactly when it has
    /// children.
    pub open spec fn wf(&self, n: nat) -> bool {
        &&& in_range(self.output@, n)
        &&& self.distinct == distinct_count(self.output@)
        &&& self.valid_parent == (self.children@.len() > 0)
    }

    /// The layer has no children yet.
    pub open spec fn childless(&self) -> bool {
        self.children@.len() == 0 && !self.valid_parent
    }

    /// Generates the layer of the first family with the given signals and
    /// modes: `side` is the signal at the side of the comparator that the
    /// input enters from the back, `back` the signal at the back of the
    /// comparator that the input enters from the side.
    pub fn new(states: usize, side: u8, side_mode: bool, back: u8, back_mode: bool) -> (layer:
        Layer)
        requires
            1 <= states <= MAX_STATES,
            (side as int) < states,
            (back as int) < states,
        ensures
            layer.output@ == family_a(states as nat, side, side_mode, back, back_mode),
            layer.notation@ == notation_spec(side, side_mode, back, back_mode),
            layer.distinct == distinct_count(layer.output@),
            layer.childless(),
            layer.wf(states as nat),
    {
        let mut output: Vec<u8> = Vec::new();
        let mut index: usize = 0;
        while index < states
            invariant
                index <= states <= MAX_STATES,
                (side as int) < states,
                (back as int) < states,
                output@ == family_a(states as nat, side, side_mode, back, back_mode).take(
                    index as int,
                ),
                forall|i: int| 0 <= i < index ==> (#[trigger] output@[i] as int) < states,
            decreases states - index,
        {
            let input: u8 = index as u8;
            let from_back: u8 = comparator(input, side, side_mode);
            let from_side: u8 = comparator(back, input, back_mode);
            let value: u8 = if from_back >= from_side {
                from_back
            } else {
                from_side
            };
            output.push(value);
            proof {
                let whole = family_a(states as nat, side, side_mode, back, back_mode);
                assert(whole.take(index + 1) == whole.take(index as int).push(value));
            }
            index += 1;
        }
        proof {
            let whole = family_a(states as nat, side, side_mode, back, back_mode);
            assert(whole.take(states as int) == whole);
        }
        let mut notation: String = String::new();
        push_star(&mut notation, side_mode);
        push_decimal(&mut notation, side);
        notation.append(",");
        push_star(&mut notation, back_mode);
        push_decimal(&mut notation, back);
        notation.append(";");
        let count: usize = distinct(&output);
        Layer { output, distinct: count, notation, children: Vec::new(), valid_parent: false }
    }

    /// Generates the layer of the second family, in which the input enters the
    /// side of both comparators; it has no notation.
    pub fn alternate(states: usize, compare: u8, subtract: u8) -> (layer: Layer)
        requires
            1 <= states <= MAX_STATES,
            (compare as int) < states,
            (subtract as int) < states,
        ensures
            layer.output@ == family_b(states as nat, compare, subtract),
            layer.notation@ == Seq::<char>::empty(),
            layer.distinct == distinct_count(layer.output@),
            layer.childless(),
            layer.wf(states as nat),
    {
        let mut output: Vec<u8> = Vec::new();
        let mut index: usize = 0;
        while index < states
            invariant
                index <= states <= MAX_STATES,
                (compare as int) < states,
                (subtract as int) < states,
                output@ == family_b(states as nat, compare, subtract).take(index as int),
                forall|i: int| 0 <= i < index ==> (#[trigger] output@[i] as int) < states,
            decreases states - index,
        {
            let input: u8 = index as u8;
            let compared: u8 = comparator(compare, input, false);
            let subtracted: u8 = comparator(subtract, input, true);
            let value: u8 = if compared >= subtracted {
                compared
            } else {
                subtracted
            };
            output.push(value);
            proof {
                let whole = family_b(states as nat, compare, subtract);
                assert(whole.take(index + 1) == whole.take(index as int).push(value));
            }
            index += 1;
        }
        proof {
            let whole = family_b(states as nat, compare, subtract);
            assert(whole.take(states as int) == whole);
        }
        let notation: String = String::new();
        let count: usize = distinct(&output);
        Layer { output, distinct: count, notation, children: Vec::new(), valid_parent: false }
    }

    /// Passes a whole table of inputs through the layer.
    pub fn pass(&self, inputs: &Vec<u8>) -> (outputs: Vec<u8>)
        requires
            forall|i: int|
                0 <= i < inputs@.len() ==> (#[trigger] inputs@[i] as int) < self.output@.len(),
        ensures
            outputs@ == compose(self.output@, inputs@),
    {
        let mut outputs: Vec<u8> = Vec::new();
        compose_into(&self.output, inputs, &mut outputs);
        outputs
    }
}

/// The number of candidates that are generated for `n` states: four blocks
/// of the first family, one for each pair of modes, and one block of the
/// second family, each with every pair of signals.
pub open spec fn candidate_total(n: nat) -> nat {
    5 * n * n
}

/// The block of candidate `k`: below four, twice the side mode plus the back
/// mode of the first family; four, the second family.
pub open spec fn candidate_block(n: nat, k: nat) -> nat {
    (k / n) / n
}

/// The first signal of candidate `k`, which varies more slowly.
pub open spec fn candidate_first(n: nat, k: nat) -> u8 {
    ((k / n) % n) as u8
}

/// The second signal of candidate `k`, which varies faster.
pub open spec fn candidate_second(n: nat, k: nat) -> u8 {
    (k % n) as u8
}

/// The table of candidate `k`.
pub open spec fn candidate_table(n: nat, k: nat) -> Seq<u8> {
    let block = candidate_block(n, k);
    if block < 4 {
        family_a(n, candidate_first(n, k), block / 2 == 1, candidate_second(n, k), block % 2 == 1)
    } else {
        family_b(n, candidate_first(n, k), candidate_second(n, k))
    }
}

/// The notation of candidate `k`.
pub open spec fn candidate_notation(n: nat, k: nat) -> Seq<char> {
    let block = candidate_block(n, k);
    if block < 4 {
        notation_spec(candidate_first(n, k), block / 2 == 1, candidate_second(n, k), block % 2 == 1)
    } else {
        Seq::<char>::empty()
    }
}

/// Candidate `k` is kept: its table is not the identity, has at least
/// `required` different values, and was not produced by an earlier candidate.
pub open spec fn accepted(n: nat, required: nat, k: nat) -> bool {
    &&& candidate_table(n, k) != identity(n)
    &&& distinct_count(candidate_table(n, k)) >= required
    &&& forall|j: nat| j < k ==> #[trigger] candidate_table(n, j) != candidate_table(n, k)
}

/// The candidates among the first `k` that are kept, in the order in which
/// they are generated.
pub open spec fn survivors(n: nat, required: nat, k: nat) -> Seq<nat>
    decreases k,
{
    if k == 0 {
        Seq::empty()
    } else if accepted(n, required, (k - 1) as nat) {
        survivors(n, required, (k - 1) as nat).push((k - 1) as nat)
    } else {
        survivors(n, required, (k - 1) as nat)
    }
}

/// The tables that the ledger holds when the first `k` candidates have been
/// looked at: the identity and the tables of those that were kept.
pub open spec fn registered(n: nat, required: nat, k: nat) -> Set<Seq<u8>> {
    Set::new(
        |table: Seq<u8>|
            table == identity(n) || exists|j: nat|
                j < k && #[trigger] accepted(n, required, j) && candidate_table(n, j) == table,
    )
}

/// The earliest candidate with the table of candidate `j`.
proof fn lemma_first_occurrence(n: nat, j: nat) -> (first: nat)
    ensures
        first <= j,
        candidate_table(n, first) == candidate_table(n, j),
        forall|i: nat| i < first ==> #[trigger] candidate_table(n, i) != candidate_table(n, j),
    decreases j,
{
    if forall|i: nat| i < j ==> #[trigger] candidate_table(n, i) != candidate_table(n, j) {
        j
    } else {
        let i = choose|i: nat| i < j && #[trigger] candidate_table(n, i) == candidate_table(n, j);
        lemma_first_occurrence(n, i)
    }
}

/// What looking at candidate `k` does: it is kept exactly when the ledger
/// does not hold its table and the table has enough different values, and
/// the ledger gains the table exactly then.
proof fn lemma_accept_step(n: nat, required: nat, k: nat)
    ensures
        accepted(n, required, k) <==> (!registered(n, required, k).contains(candidate_table(n, k))
            && distinct_count(candidate_table(n, k)) >= required),
        registered(n, required, k + 1) == if accepted(n, required, k) {
            registered(n, required, k).insert(candidate_table(n, k))
        } else {
            registered(n, required, k)
        },
{
    let table = candidate_table(n, k);
    let before = registered(n, required, k);
    let after = registered(n, required, k + 1);
    if !before.contains(table) && distinct_count(table) >= required {
        assert forall|j: nat| j < k implies #[trigger] candidate_table(n, j) != table by {
            if candidate_table(n, j) == table {
                let first = lemma_first_occurrence(n, j);
                assert(accepted(n, required, first));
                assert(before.contains(table));
            }
        }
    }
    if accepted(n, required, k) && before.contains(table) {
        let j = choose|j: nat|
            j < k && #[trigger] accepted(n, required, j) && candidate_table(n, j) == table;
        assert(candidate_table(n, j) != table);
    }
    let expected = if accepted(n, required, k) {
        before.insert(table)
    } else {
        before
    };
    assert forall|t: Seq<u8>| after.contains(t) <==> expected.contains(t) by {
        if after.contains(t) && t != identity(n) {
            let j = choose|j: nat|
                j < k + 1 && #[trigger] accepted(n, required, j) && candidate_table(n, j) == t;
            if j < k {
                assert(before.contains(t));
            }
        }
        if before.contains(t) && t != identity(n) {
            let j = choose|j: nat|
                j < k && #[trigger] accepted(n, required, j) && candidate_table(n, j) == t;
            assert(j < k + 1);
        }
        if accepted(n, required, k) && t == table {
            assert(k < k + 1);
        }
    }
    assert(after =~= expected);
}

/// The candidates that are kept among the first `k` are those that are
/// accepted.
pub proof fn lemma_survivors_members(n: nat, required: nat, k: nat, s: nat)
    ensures
        survivors(n, required, k).contains(s) <==> s < k && accepted(n, required, s),
    decreases k,
{
    if k > 0 {
        let shorter = survivors(n, required, (k - 1) as nat);
        let longer = survivors(n, required, k);
        lemma_survivors_members(n, required, (k - 1) as nat, s);
        if accepted(n, required, (k - 1) as nat) {
            assert(longer == shorter.push((k - 1) as nat));
            if shorter.contains(s) {
                let i = choose|i: int| 0 <= i < shorter.len() && shorter[i] == s;
                assert(longer[i] == s);
            }
            if s == k - 1 {
                assert(longer[shorter.len() as int] == s);
            }
            if longer.contains(s) && s != k - 1 {
                let i = choose|i: int| 0 <= i < longer.len() && longer[i] == s;
                assert(shorter[i] == s);
            }
        }
    }
}

/// The candidates that are kept stand in the order of their generation.
pub proof fn lemma_survivors_rise(n: nat, required: nat, k: nat)
    ensures
        forall|i: int|
            0 <= i < survivors(n, required, k).len() ==> #[trigger] survivors(n, required, k)[i]
                < k,
        forall|i: int, j: int|
            0 <= i < j < survivors(n, required, k).len() ==> #[trigger] survivors(n, required, k)[i]
                < #[trigger] survivors(n, required, k)[j],
    decreases k,
{
    if k > 0 {
        lemma_survivors_rise(n, required, (k - 1) as nat);
        let shorter = survivors(n, required, (k - 1) as nat);
        let longer = survivors(n, required, k);
        assert forall|i: int| 0 <= i < longer.len() implies #[trigger] longer[i] < k by {
            if i < shorter.len() {
                assert(longer[i] == shorter[i]);
            }
        }
        assert forall|i: int, j: int| 0 <= i < j < longer.len() implies #[trigger] longer[i]
            < #[trigger] longer[j] by {
            assert(longer[i] == shorter[i]);
            if j < shorter.len() {
                assert(longer[j] == shorter[j]);
            }
        }
    }
}

/// Generation keeps exactly one layer for each table that some candidate
/// has, that is not the identity, and that has at least `required`
/// different values.
pub proof fn lemma_kept_exactly(n: nat, required: nat, k: nat, table: Seq<u8>)
    ensures
        (exists|i: int|
            0 <= i < survivors(n, required, k).len() && candidate_table(
                n,
                #[trigger] survivors(n, required, k)[i],
            ) == table) <==> (table != identity(n) && distinct_count(table) >= required
            && exists|j: nat| j < k && #[trigger] candidate_table(n, j) == table),
{
    let kept = survivors(n, required, k);
    if exists|i: int| 0 <= i < kept.len() && candidate_table(n, #[trigger] kept[i]) == table {
        let i = choose|i: int| 0 <= i < kept.len() && candidate_table(n, #[trigger] kept[i]) == table;
        assert(kept.contains(kept[i]));
        lemma_survivors_members(n, required, k, kept[i]);
    }
    if table != identity(n) && distinct_count(table) >= required && exists|j: nat|
        j < k && #[trigger] candidate_table(n, j) == table {
        let j = choose|j: nat| j < k && #[trigger] candidate_table(n, j) == table;
        let first = lemma_first_occurrence(n, j);
        assert(accepted(n, required, first));
        lemma_survivors_members(n, required, k, first);
        let i = choose|i: int| 0 <= i < kept.len() && kept[i] == first;
        assert(candidate_table(n, kept[i]) == table);
    }
}

/// The collection of the layers that are kept; a layer is known to the others
/// by its index.
#[derive(Clone, Debug)]
pub struct Layers {
    pub layers: Vec<Layer>,
}

impl Layer {
    /// The layer is candidate `k` as it is generated: its table, its count of
    /// different outputs and its notation, without children.
    pub open spec fn is_candidate(&self, n: nat, k: nat) -> bool {
        &&& self.output@ == candidate_table(n, k)
        &&& self.distinct == distinct_count(candidate_table(n, k))
        &&& self.notation@ == candidate_notation(n, k)
        &&& self.childless()
    }
}

impl Layers {
    /// The output tables of the layers, by index.
    pub open spec fn tables(&self) -> Seq<Seq<u8>> {
        Seq::new(self.layers@.len(), |i: int| self.layers@[i].output@)
    }

    /// Every layer is a well-formed layer over `n` states, no two layers have
    /// the same table, none has the identity as its table, and every child
    /// is the index of a layer.
    pub open spec fn wf(&self, n: nat) -> bool {
        &&& forall|i: int| 0 <= i < self.layers@.len() ==> (#[trigger] self.layers@[i]).wf(n)
        &&& forall|i: int, j: int|
            0 <= i < j < self.layers@.len() ==> (#[trigger] self.layers@[i]).output@
                != (#[trigger] self.layers@[j]).output@
        &&& forall|i: int|
            0 <= i < self.layers@.len() ==> (#[trigger] self.layers@[i]).output@ != identity(n)
        &&& forall|i: int, c: int|
            0 <= i < self.layers@.len() && 0 <= c < self.layers@[i].children@.len()
                ==> (#[trigger] self.layers@[i].children@[c]) < self.layers@.len()
    }

    /// Every layer is a table over `n` states and every child is the index
    /// of a layer: what it takes to walk the graph.
    pub open spec fn linked(&self, n: nat) -> bool {
        &&& forall|i: int|
            0 <= i < self.layers@.len() ==> in_range((#[trigger] self.layers@[i]).output@, n)
        &&& forall|i: int, c: int|
            0 <= i < self.layers@.len() && 0 <= c < self.layers@[i].children@.len()
                ==> (#[trigger] self.layers@[i].children@[c]) < self.layers@.len()
    }

    /// The layers are the candidates that are kept among the first `k`, in
    /// the order of their generation.
    pub open spec fn generated(&self, n: nat, required: nat, k: nat) -> bool {
        &&& self.layers@.len() == survivors(n, required, k).len()
        &&& forall|i: int|
            0 <= i < self.layers@.len() ==> (#[trigger] self.layers@[i]).is_candidate(
                n,
                survivors(n, required, k)[i],
            )
    }

    /// The number of units of work that generation is announced with: one
    /// for each candidate of the first family.
    pub fn generation_work(states: usize) -> (units: u64)
        requires
            states <= MAX_STATES,
        ensures
            units == 4 * (states * states),
    {
        assert(states * states <= 256 * 256) by (nonlinear_arith)
            requires
                states <= 256,
        ;
        let square: usize = states * states;
        (4 * square) as u64
    }

    /// Tells whether the collection is well formed over the states of
    /// `config`.
    pub fn is_valid(&self, config: &Config) -> (valid: bool)
        requires
            config.wf(),
        ensures
            valid == self.wf(config.states as nat),
    {
        let states: usize = config.states;
        let count: usize = self.layers.len();
        let ghost n = states as nat;
        let ghost tables = self.tables();
        let mut ledger: Ledger = Ledger::new();
        ledger.insert(identity_table(states));
        let mut i: usize = 0;
        while i < count
            invariant
                i <= count,
                count == self.layers@.len(),
                n == states,
                states == config.states,
                tables == self.tables(),
                ledger@ == tables.take(i as int).to_set().insert(identity(n)),
                forall|q: int| 0 <= q < i ==> (#[trigger] self.layers@[q]).wf(n),
                forall|a: int, b: int|
                    0 <= a < b < i ==> (#[trigger] self.layers@[a]).output@ != (
                    #[trigger] self.layers@[b]).output@,
                forall|q: int| 0 <= q < i ==> (#[trigger] self.layers@[q]).output@ != identity(n),
                forall|q: int, c: int|
                    0 <= q < i && 0 <= c < self.layers@[q].children@.len() ==> (
                    #[trigger] self.layers@[q].children@[c]) < count,
            decreases count - i,
        {
            let layer: &Layer = &self.layers[i];
            if !is_in_range(&layer.output, states) {
                assert(!self.layers@[i as int].wf(n));
                return false;
            }
            if layer.distinct != distinct(&layer.output) {
                assert(!self.layers@[i as int].wf(n));
                return false;
            }
            if layer.valid_parent != (layer.children.len() > 0) {
                assert(!self.layers@[i as int].wf(n));
                return false;
            }
            let mut c: usize = 0;
            while c < layer.children.len()
                invariant
                    c <= layer.children.len(),
                    i < count,
                    count == self.layers@.len(),
                    n == config.states,
                    *layer == self.layers@[i as int],
                    forall|d: int| 0 <= d < c ==> (#[trigger] layer.children@[d]) < count,
                decreases layer.children.len() - c,
            {
                if layer.children[c] >= count {
                    assert(!(self.layers@[i as int].children@[c as int] < self.layers@.len()));
                    return false;
                }
                c += 1;
            }
            if ledger.contains(&layer.output) {
                proof {
                    let table = layer.output@;
                    if table != identity(n) {
                        let earlier = tables.take(i as int);
                        assert(earlier.to_set().contains(table));
                        let q = choose|q: int| 0 <= q < earlier.len() && earlier[q] == table;
                        assert(tables[q] == table);
                        assert(self.layers@[q].output@ == self.layers@[i as int].output@);
                    }
                }
                return false;
            }
            ledger.insert(copy_table(&layer.output));
            proof {
                assert(tables.take(i + 1) == tables.take(i as int).push(tables[i as int]));
                tables.take(i as int).lemma_push_to_set_commute(tables[i as int]);
                assert(ledger@ =~= tables.take(i + 1).to_set().insert(identity(n)));
                assert forall|a: int, b: int| 0 <= a < b < i + 1 implies (
                #[trigger] self.layers@[a]).output@ != (#[trigger] self.layers@[b]).output@ by {
                    if b == i {
                        assert(tables.take(i as int)[a] == self.layers@[a].output@);
                        assert(tables.take(i as int).to_set().contains(self.layers@[a].output@));
                    }
                }
            }
            i += 1;
        }
        true
    }

    /// Generates every candidate, the first family before the second and each
    /// in the order of its parameters, and keeps those that the ledger
    /// accepts.
    pub fn generate_layers(config: &Config) -> (made: Layers)
        requires
            config.wf(),
        ensures
            made.generated(
                config.states as nat,
                config.distinct as nat,
                candidate_total(config.states as nat),
            ),
            made.wf(config.states as nat),
    {
        let mut generation: Generation = Generation::start(config);
        while !generation.finished()
            invariant
                generation.states() == config.states,
                generation.required() == config.distinct,
                generation.position() <= candidate_total(generation.states()),
            decreases candidate_total(generation.states()) - generation.position(),
        {
            generation = generation.step();
        }
        generation.finish()
    }
}

/// Generation in steps of one candidate, for a caller that has something to
/// do between the steps.
pub struct Generation {
    states: usize,
    required: usize,
    next: usize,
    ledger: Ledger,
    made: Layers,
}

impl Generation {
    /// The ledger holds the identity and the tables kept so far, and the
    /// layers kept so far are those that the candidates before `next` leave.
    #[verifier::type_invariant]
    spec fn inv(&self) -> bool {
        &&& 1 <= self.states <= MAX_STATES
        &&& self.next <= candidate_total(self.states as nat)
        &&& self.ledger@ == registered(self.states as nat, self.required as nat, self.next as nat)
        &&& self.made.generated(self.states as nat, self.required as nat, self.next as nat)
        &&& self.made.wf(self.states as nat)
        &&& forall|i: int|
            0 <= i < self.made.layers@.len() ==> self.ledger@.contains(
                (#[trigger] self.made.layers@[i]).output@,
            )
    }

    /// The number of states.
    pub closed spec fn states(&self) -> nat {
        self.states as nat
    }

    /// The least number of different values that a kept table has.
    pub closed spec fn required(&self) -> nat {
        self.required as nat
    }

    /// The number of candidates that have been looked at.
    pub closed spec fn position(&self) -> nat {
        self.next as nat
    }

    /// The layers that have been kept so far.
    pub closed spec fn kept(&self) -> Layers {
        self.made
    }

    /// Generation before its first candidate.
    pub fn start(config: &Config) -> (generation: Generation)
        requires
            config.wf(),
        ensures
            generation.states() == config.states,
            generation.required() == config.distinct,
            generation.position() == 0,
            generation.kept().layers@.len() == 0,
    {
        let mut ledger: Ledger = Ledger::new();
        ledger.insert(identity_table(config.states));
        assert(ledger@ =~= registered(config.states as nat, config.distinct as nat, 0));
        Generation {
            states: config.states,
            required: config.distinct,
            next: 0,
            ledger,
            made: Layers { layers: Vec::new() },
        }
    }

    /// The number of candidates.
    fn total(&self) -> (total: usize)
        ensures
            total == candidate_total(self.states()),
            self.position() <= total,
    {
        proof {
            use_type_invariant(self);
        }
        let states: usize = self.states;
        assert(states * states <= 256 * 256) by (nonlinear_arith)
            requires
                states <= 256,
        ;
        let square: usize = states * states;
        assert(5 * states * states == 5 * square) by (nonlinear_arith)
            requires
                square == states * states,
        ;
        5 * square
    }

    /// Tells whether every candidate has been looked at.
    pub fn finished(&self) -> (done: bool)
        ensures
            done == (self.position() == candidate_total(self.states())),
            self.position() <= candidate_total(self.states()),
    {
        self.next == self.total()
    }

    /// Looks at the next candidate, if one is left, and keeps it if the
    /// ledger accepts it.
    pub fn step(self) -> (after: Generation)
        ensures
            after.states() == self.states(),
            after.required() == self.required(),
            after.position() == if self.position() < candidate_total(self.states()) {
                self.position() + 1
            } else {
                self.position()
            },
            after.kept().generated(after.states(), after.required(), after.position()),
            after.kept().wf(after.states()),
    {
        proof {
            use_type_invariant(&self);
        }
        let total: usize = self.total();
        if self.next == total {
            return self;
        }
        let Generation { states, required, next, mut ledger, mut made } = self;
        let ghost n = states as nat;
        let ghost needed = required as nat;
        let row: usize = next / states;
        let block: usize = row / states;
        let first: u8 = (row % states) as u8;
        let second: u8 = (next % states) as u8;
        let candidate: Layer = if block < 4 {
            Layer::new(states, first, block / 2 == 1, second, block % 2 == 1)
        } else {
            Layer::alternate(states, first, second)
        };
        proof {
            assert(candidate.is_candidate(n, next as nat));
            lemma_accept_step(n, needed, next as nat);
        }
        let ghost kept_before = made.layers@;
        if ledger.accept(&candidate, required) {
            made.layers.push(candidate);
            proof {
                assert(made.layers@ == kept_before.push(candidate));
                assert forall|i: int| 0 <= i < made.layers@.len() implies (
                #[trigger] made.layers@[i]).is_candidate(
                    n,
                    survivors(n, needed, (next + 1) as nat)[i],
                ) by {
                    if i < kept_before.len() {
                        assert(made.layers@[i] == kept_before[i]);
                    }
                }
            }
        }
        Generation { states, required, next: next + 1, ledger, made }
    }

    /// The layers that have been kept.
    pub fn finish(self) -> (made: Layers)
        ensures
            made == self.kept(),
            made.generated(self.states(), self.required(), self.position()),
            made.wf(self.states()),
    {
        proof {
            use_type_invariant(&self);
        }
        self.made
    }
}

} // verus!
