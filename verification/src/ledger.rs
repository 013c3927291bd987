//! The ledger of output tables that have been produced so far.

use crate::layers::Layer;
use crate::vector::{copy_table, same_table};
use std::collections::HashMap;
use vstd::prelude::*;

verus! {

/// The modulus of the fingerprint; products below it times the base fit a `u64`.
pub const FINGERPRINT_MODULUS: u64 = 36028797018963913;

/// The base of the fingerprint, one more than the largest entry of a table.
pub const FINGERPRINT_BASE: u64 = 257;

/// The number under which a table is filed: a positional reading of its
/// entries, reduced by the modulus after every digit.
pub open spec fn fingerprint_spec(table: Seq<u8>) -> u64
    decreases table.len(),
{
    if table.len() == 0 {
        0
    } else {
        ((fingerprint_spec(table.drop_last()) as int * (FINGERPRINT_BASE as int)
            + table.last() as int) % (FINGERPRINT_MODULUS as int)) as u64
    }
}

/// Computes the number under which `table` is filed.
pub fn fingerprint(table: &Vec<u8>) -> (print: u64)
    ensures
        print == fingerprint_spec(table@),
{
    let mut print: u64 = 0;
    let mut i: usize = 0;
    while i < table.len()
        invariant
            i <= table.len(),
            print == fingerprint_spec(table@.take(i as int)),
            print < FINGERPRINT_MODULUS || i == 0,
            print == 0 || i > 0,
        decreases table.len() - i,
    {
        proof {
            assert(table@.take(i + 1).drop_last() == table@.take(i as int));
            assert(table@.take(i + 1).last() == table@[i as int]);
        }
        print = (print * FINGERPRINT_BASE + table[i] as u64) % FINGERPRINT_MODULUS;
        i += 1;
    }
    proof {
        assert(table@.take(i as int) == table@);
    }
    print
}

/// A set of tables, filed by fingerprint.
pub struct Ledger {
    shelves: HashMap<u64, Vec<Vec<u8>>>,
}

/// `shelf` holds a table equal to `table`.
pub open spec fn shelf_holds(shelf: Seq<Vec<u8>>, table: Seq<u8>) -> bool {
    exists|j: int| 0 <= j < shelf.len() && (#[trigger] shelf[j])@ == table
}

impl View for Ledger {
    type V = Set<Seq<u8>>;

    closed spec fn view(&self) -> Set<Seq<u8>> {
        Set::new(
            |table: Seq<u8>|
                self.shelves@.contains_key(fingerprint_spec(table)) && shelf_holds(
                    self.shelves@[fingerprint_spec(table)]@,
                    table,
                ),
        )
    }
}

/// Looks for `table` on one shelf.
fn scan_shelf(shelf: &Vec<Vec<u8>>, table: &Vec<u8>) -> (found: bool)
    ensures
        found == shelf_holds(shelf@, table@),
{
    let mut j: usize = 0;
    while j < shelf.len()
        invariant
            j <= shelf.len(),
            forall|k: int| 0 <= k < j ==> (#[trigger] shelf@[k])@ != table@,
        decreases shelf.len() - j,
    {
        if same_table(&shelf[j], table) {
            return true;
        }
        j += 1;
    }
    false
}

impl Ledger {
    /// A ledger that holds no table.
    pub fn new() -> (ledger: Ledger)
        ensures
            ledger@ == Set::<Seq<u8>>::empty(),
    {
        let ledger = Ledger { shelves: HashMap::new() };
        assert(ledger@ =~= Set::<Seq<u8>>::empty());
        ledger
    }

    /// Tells whether `table` has been registered.
    pub fn contains(&self, table: &Vec<u8>) -> (found: bool)
        ensures
            found == self@.contains(table@),
    {
        broadcast use vstd::std_specs::hash::group_hash_axioms;

        let print: u64 = fingerprint(table);
        match self.shelves.get(&print) {
            Some(shelf) => scan_shelf(shelf, table),
            None => false,
        }
    }

    /// Registers `table`.
    pub fn insert(&mut self, table: Vec<u8>)
        ensures
            final(self)@ == old(self)@.insert(table@),
    {
        broadcast use vstd::std_specs::hash::group_hash_axioms;

        let print: u64 = fingerprint(&table);
        let ghost before = self.shelves@;
        let mut shelf: Vec<Vec<u8>> = match self.shelves.remove(&print) {
            Some(shelf) => shelf,
            None => Vec::new(),
        };
        let ghost old_shelf = shelf@;
        let ghost added = table@;
        shelf.push(table);
        self.shelves.insert(print, shelf);
        proof {
            let after = self.shelves@;
            assert forall|t: Seq<u8>| self@.contains(t) <==> old(self)@.insert(added).contains(
                t,
            ) by {
                let p = fingerprint_spec(t);
                if p == print {
                    let new_shelf = after[print]@;
                    assert(new_shelf == old_shelf.push(new_shelf[old_shelf.len() as int]));
                    assert(new_shelf[old_shelf.len() as int]@ == added);
                    if shelf_holds(new_shelf, t) {
                        let j = choose|j: int|
                            0 <= j < new_shelf.len() && (#[trigger] new_shelf[j])@ == t;
                        if j < old_shelf.len() {
                            assert(old_shelf[j]@ == t);
                            assert(before.contains_key(print));
                        }
                    }
                    if before.contains_key(print) && shelf_holds(before[print]@, t) {
                        let j = choose|j: int|
                            0 <= j < before[print]@.len() && (#[trigger] before[print]@[j])@ == t;
                        assert(new_shelf[j]@ == t);
                    }
                    if t == added {
                        assert(new_shelf[old_shelf.len() as int]@ == t);
                    }
                } else {
                    assert(after.contains_key(p) == before.contains_key(p));
                    if before.contains_key(p) {
                        assert(after[p] == before[p]);
                    }
                }
            }
            assert(self@ =~= old(self)@.insert(added));
        }
    }

    /// Decides whether `candidate` is kept, and registers its table if it is.
    /// A candidate is refused when its table is registered already, or when
    /// it has fewer than `required` different outputs.
    pub fn accept(&mut self, candidate: &Layer, required: usize) -> (accepted: bool)
        ensures
            accepted == (!old(self)@.contains(candidate.output@) && candidate.distinct
                >= required),
            final(self)@ == if accepted {
                old(self)@.insert(candidate.output@)
            } else {
                old(self)@
            },
    {
        if self.contains(&candidate.output) {
            return false;
        }
        if candidate.distinct < required {
            return false;
        }
        self.insert(copy_table(&candidate.output));
        true
    }
}

} // verus!
