//! The parameters of a run: the size of the state space, the target table and
//! the stages that report their progress.

use crate::vector::{distinct_count, in_range, is_in_range, MAX_STATES};
use vstd::prelude::*;

verus! {

/// A stage of a run that may report on its work.
#[derive(PartialEq, Eq, Structural, Clone, Copy, Debug)]
pub enum Debug {
    Initial,
    LayerGen,
    LayerPop,
}

/// Why a set of parameters is refused.
#[derive(PartialEq, Eq, Structural, Clone, Copy, Debug)]
pub enum ConfigError {
    /// The state space is empty.
    NoStates,
    /// The state space has values that do not fit a `u8`.
    TooManyStates,
    /// The target does not have one entry for each state.
    TargetLength,
    /// An entry of the target is not a state.
    TargetOutOfRange,
}

/// The parameters of a run.
#[derive(Clone, Debug)]
pub struct Config {
    /// The number of states; every value of a table is below it.
    pub states: usize,
    /// The table that the search looks for.
    pub target: Vec<u8>,
    /// The least number of different values that a useful table has.
    pub distinct: usize,
    /// The stages that report.
    pub debug_outputs: Vec<Debug>,
}

/// The first reason, if any, for which `states` and `target` are refused.
pub open spec fn config_fault(states: usize, target: Seq<u8>) -> Option<ConfigError> {
    if states == 0 {
        Some(ConfigError::NoStates)
    } else if states > MAX_STATES {
        Some(ConfigError::TooManyStates)
    } else if target.len() != states {
        Some(ConfigError::TargetLength)
    } else if !in_range(target, states as nat) {
        Some(ConfigError::TargetOutOfRange)
    } else {
        None
    }
}

/// Group `k` is occupied exactly when `k` occurs in `seen`.
spec fn marks(groups: Seq<usize>, seen: Seq<u8>) -> bool {
    forall|k: int|
        0 <= k < groups.len() ==> (#[trigger] groups[k] > 0 <==> k < 256 && seen.contains(k as u8))
}

/// The values of `target` that are below `bound`.
spec fn below(target: Seq<u8>, bound: int) -> Set<u8> {
    target.to_set().filter(|v: u8| (v as int) < bound)
}

/// Counts the groups into which `target` sorts the states: the number of
/// different values that it holds.
pub fn target_distinct(target: &Vec<u8>) -> (count: usize)
    requires
        in_range(target@, target@.len()),
    ensures
        count == distinct_count(target@),
        target@.len() > 0 ==> count >= 1,
        count <= target@.len(),
{
    broadcast use vstd::seq_lib::group_seq_properties;

    let states: usize = target.len();
    let mut groups: Vec<usize> = Vec::new();
    let mut i: usize = 0;
    while i < states
        invariant
            i <= states,
            groups@.len() == i,
            forall|k: int| 0 <= k < i ==> #[trigger] groups@[k] == 0,
        decreases states - i,
    {
        groups.push(0);
        i += 1;
    }
    proof {
        assert(target@.take(0) =~= Seq::<u8>::empty());
    }
    i = 0;
    while i < states
        invariant
            i <= states,
            states == target@.len(),
            groups@.len() == states,
            in_range(target@, states as nat),
            forall|k: int| 0 <= k < states ==> #[trigger] groups@[k] <= i,
            marks(groups@, target@.take(i as int)),
        decreases states - i,
    {
        let value: usize = target[i] as usize;
        let ghost before = groups@;
        assert((target@[i as int] as nat) < states);
        groups.set(value, groups[value] + 1);
        proof {
            let shorter = target@.take(i as int);
            let longer = target@.take(i + 1);
            assert(longer == shorter.push(target@[i as int]));
            assert forall|k: int| 0 <= k < groups@.len() implies (#[trigger] groups@[k] > 0 <==> k
                < 256 && longer.contains(k as u8)) by {
                if k == value {
                    assert(longer[i as int] == k as u8);
                } else {
                    assert(groups@[k] == before[k]);
                    if k < 256 && longer.contains(k as u8) {
                        let j = choose|j: int| 0 <= j < longer.len() && longer[j] == k as u8;
                        assert(longer[i as int] as int == value);
                        assert(j < i);
                        assert(shorter[j] == k as u8);
                    }
                    if k < 256 && shorter.contains(k as u8) {
                        let j = choose|j: int| 0 <= j < shorter.len() && shorter[j] == k as u8;
                        assert(longer[j] == k as u8);
                    }
                }
            }
        }
        i += 1;
    }
    proof {
        assert(target@.take(states as int) == target@);
        assert(below(target@, 0) =~= Set::<u8>::empty());
    }
    let mut count: usize = 0;
    i = 0;
    while i < states
        invariant
            i <= states,
            states == target@.len(),
            groups@.len() == states,
            marks(groups@, target@),
            count <= i,
            count == below(target@, i as int).len(),
        decreases states - i,
    {
        proof {
            let smaller = below(target@, i as int);
            let larger = below(target@, i + 1);
            assert(smaller.finite());
            if groups@[i as int] > 0 {
                assert(target@.contains(i as u8));
                assert(larger =~= smaller.insert(i as u8));
            } else {
                assert(larger =~= smaller);
            }
        }
        if groups[i] > 0 {
            count += 1;
        }
        i += 1;
    }
    proof {
        assert(below(target@, states as int) =~= target@.to_set());
        target@.lemma_cardinality_of_set();
        if target@.len() > 0 {
            target@.lemma_cardinality_of_empty_set_is_0();
        }
    }
    count
}

impl Config {
    /// The parameters are usable: the state space is neither empty nor too
    /// large, the target is a table over it, and the required number of
    /// different values is that of the target.
    pub open spec fn wf(&self) -> bool {
        &&& 1 <= self.states <= MAX_STATES
        &&& in_range(self.target@, self.states as nat)
        &&& self.distinct == distinct_count(self.target@)
    }

    /// Makes the parameters of a run, or tells why they are refused; the
    /// required number of different values is derived from the target.
    pub fn new(states: usize, target: Vec<u8>, debug_outputs: Vec<Debug>) -> (made: Result<
        Config,
        ConfigError,
    >)
        ensures
            match made {
                Ok(config) => {
                    &&& config_fault(states, target@) is None
                    &&& config.wf()
                    &&& config.states == states
                    &&& config.target@ == target@
                    &&& config.debug_outputs@ == debug_outputs@
                },
                Err(fault) => config_fault(states, target@) == Some(fault),
            },
    {
        if states == 0 {
            return Err(ConfigError::NoStates);
        }
        if states > MAX_STATES {
            return Err(ConfigError::TooManyStates);
        }
        if target.len() != states {
            return Err(ConfigError::TargetLength);
        }
        if !is_in_range(&target, states) {
            return Err(ConfigError::TargetOutOfRange);
        }
        let distinct: usize = target_distinct(&target);
        Ok(Config { states, target, distinct, debug_outputs })
    }

    /// The parameters of the standard run: sixteen states, every state sent to
    /// zero, every stage reporting.
    pub fn standard() -> (config: Config)
        ensures
            config.wf(),
            config.states == 16,
            config.target@ == Seq::new(16, |i: int| 0u8),
            config.distinct == 1,
            config.debug_outputs@ == seq![Debug::Initial, Debug::LayerGen, Debug::LayerPop],
    {
        let mut target: Vec<u8> = Vec::new();
        let mut i: usize = 0;
        while i < 16
            invariant
                i <= 16,
                target@ == Seq::new(i as nat, |j: int| 0u8),
            decreases 16 - i,
        {
            target.push(0);
            i += 1;
        }
        let mut debug_outputs: Vec<Debug> = Vec::new();
        debug_outputs.push(Debug::Initial);
        debug_outputs.push(Debug::LayerGen);
        debug_outputs.push(Debug::LayerPop);
        proof {
            assert(target@[0] == 0u8);
            assert(target@.to_set() =~= set![0u8]);
        }
        let distinct: usize = target_distinct(&target);
        Config { states: 16, target, distinct, debug_outputs }
    }

    /// Tells whether the parameters are usable.
    pub fn is_valid(&self) -> (valid: bool)
        ensures
            valid == self.wf(),
    {
        if self.states == 0 || self.states > MAX_STATES {
            return false;
        }
        if !is_in_range(&self.target, self.states) {
            return false;
        }
        self.distinct == target_distinct(&self.target)
    }

    /// Tells whether `stage` is among the stages that report.
    pub fn reports(&self, stage: Debug) -> (listed: bool)
        ensures
            listed == self.debug_outputs@.contains(stage),
    {
        let mut i: usize = 0;
        while i < self.debug_outputs.len()
            invariant
                i <= self.debug_outputs.len(),
                forall|j: int| 0 <= j < i ==> self.debug_outputs@[j] != stage,
            decreases self.debug_outputs.len() - i,
        {
            if self.debug_outputs[i] == stage {
                return true;
            }
            i += 1;
        }
        false
    }
}

} // verus!
