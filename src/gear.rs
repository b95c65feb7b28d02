use vstd::prelude::*;

use crate::utils::{compositions, holds, is_composition, lemma_total_nonneg, seq_total};
use crate::levels::{
    current_level, full_flatten, flatten, has_slot_below, lemma_flatten_within, lemma_sum8,
    level_of, seq_sum, slot_values, within, PowerLevel, SlotTable, MAX_LEVEL, SLOT_COUNT,
};

verus! {

/// Probabilities are integer weights out of this many: every slot distribution sums to it.
/// It is divisible by 1 to 8, so any uniform split over some of the slots is exact.
pub const PMF_DENOMINATOR: u32 = 840;

/// Largest gain an action may grant.
pub const MAX_GAIN: i16 = 1000;

/// Largest number of actions in a catalog.
pub const MAX_ACTIONS: usize = 32;

/// One kind of upgrade: what it grants below and above the soft cap, how often it may be
/// used, and how likely it lands on each slot (weights out of `PMF_DENOMINATOR`).
#[derive(Clone, Copy, Debug, PartialEq, Eq)]
pub struct Action {
    pub pinnacle_gain: PowerLevel,
    pub powerful_gain: PowerLevel,
    pub arity: u8,
    pub pmf: [u32; 8],
}

/// The eight equipment slots, in table order.
#[derive(Clone, Copy, Debug, PartialEq, Eq, PartialOrd)]
pub enum Slot {
    Kinetic,
    Energy,
    Power,
    Head,
    Glove,
    Chest,
    Leg,
    ClassItem,
    NumberOfSlots,
}

impl Slot {
    /// Position of the slot in a slot table.
    pub open spec fn spec_index(self) -> int {
        match self {
            Slot::Kinetic => 0,
            Slot::Energy => 1,
            Slot::Power => 2,
            Slot::Head => 3,
            Slot::Glove => 4,
            Slot::Chest => 5,
            Slot::Leg => 6,
            Slot::ClassItem => 7,
            Slot::NumberOfSlots => 8,
        }
    }

    /// Position of the slot in a slot table; `NumberOfSlots` gives the table's length.
    pub fn index(&self) -> (r: usize)
        ensures
            r as int == self.spec_index(),
    {
        match self {
            Slot::Kinetic => 0,
            Slot::Energy => 1,
            Slot::Power => 2,
            Slot::Head => 3,
            Slot::Glove => 4,
            Slot::Chest => 5,
            Slot::Leg => 6,
            Slot::ClassItem => 7,
            Slot::NumberOfSlots => SLOT_COUNT,
        }
    }
}

/// A loadout as its level (`mean`) and each slot's offset from it.
#[derive(Clone, Copy, Debug, PartialEq, Eq, Hash)]
pub struct StateEntry {
    pub mean: u16,
    pub mean_slot_deviation: [i8; 8],
}

/// The best next action from some state and its expected score, in units of
/// `1 / SCORE_SCALE` power levels.
#[derive(Clone, Copy, Debug, PartialEq, Eq)]
pub struct StateTransition {
    pub next_action: u8,
    pub score: u64,
}

/// A state together with the uses left of each action.
#[derive(Clone, Debug, PartialEq, Eq)]
pub struct FullStateEntry {
    pub available_actions: Vec<u8>,
    pub state_entry: StateEntry,
}

/// Why a configuration was rejected.
#[derive(Clone, Copy, Debug, PartialEq, Eq)]
pub enum ConfigError {
    /// The caps are not `0 <= powerful_start`, `0 <= powerful_cap <= pinnacle_cap <= MAX_LEVEL`.
    InvalidCaps,
    /// More than `MAX_ACTIONS` actions.
    TooManyActions,
    /// A gain of this action is negative, above `MAX_GAIN`, or lifts a slot past the pinnacle cap.
    GainOutOfRange(usize),
    /// The slot weights of this action do not sum to `PMF_DENOMINATOR`.
    ProbabilityNotOne(usize),
    /// This tabled state has a slot below 0 or above the pinnacle cap.
    InvalidEntry(usize),
}

/// A problem instance: the caps and the catalog of actions, with every state to be tabled.
pub struct Configuration {
    pub powerful_start: PowerLevel,
    pub powerful_cap: PowerLevel,
    pub pinnacle_cap: PowerLevel,
    pub actions: Vec<Action>,
    pub all_entries: Vec<StateEntry>,
}

/// The sum of a slot distribution's weights.
pub open spec fn pmf_total(p: [u32; 8]) -> int {
    p[0] + p[1] + p[2] + p[3] + p[4] + p[5] + p[6] + p[7]
}

/// Caps a configuration accepts.
pub open spec fn caps_ok(start: PowerLevel, powerful_cap: PowerLevel, pinnacle_cap: PowerLevel) -> bool {
    0 <= start && 0 <= powerful_cap <= pinnacle_cap <= MAX_LEVEL
}

/// Gains are non-negative, at most `MAX_GAIN`, and cannot lift a slot past the pinnacle cap.
pub open spec fn gains_ok(a: Action, powerful_cap: int, pinnacle_cap: int) -> bool {
    &&& 0 <= a.powerful_gain <= MAX_GAIN
    &&& 0 <= a.pinnacle_gain <= MAX_GAIN
    &&& powerful_cap + a.pinnacle_gain <= pinnacle_cap
}

/// An action a configuration accepts: gains in range and weights summing to `PMF_DENOMINATOR`.
pub open spec fn action_ok(a: Action, powerful_cap: int, pinnacle_cap: int) -> bool {
    gains_ok(a, powerful_cap, pinnacle_cap) && pmf_total(a.pmf) == PMF_DENOMINATOR
}

/// The absolute slot levels of a state.
pub open spec fn entry_slots(e: StateEntry) -> Seq<int> {
    Seq::new(8, |i: int| e.mean as int + e.mean_slot_deviation[i] as int)
}

/// The canonical form: the mean is the level of the slots and no slot lies below it.
pub open spec fn canonical(e: StateEntry) -> bool {
    &&& e.mean as int == level_of(entry_slots(e))
    &&& forall|i: int| 0 <= i < 8 ==> 0 <= #[trigger] e.mean_slot_deviation[i]
}

/// The sum of the offsets of a state.
pub open spec fn deviation_sum(e: StateEntry) -> int {
    let d = e.mean_slot_deviation;
    d[0] + d[1] + d[2] + d[3] + d[4] + d[5] + d[6] + d[7]
}

/// In canonical form the offsets sum to the slot total modulo 8, so they sum to 0 exactly
/// when the total is a multiple of 8; they are each between 0 and 7.
pub proof fn lemma_deviation_sum(e: StateEntry)
    requires
        canonical(e),
    ensures
        deviation_sum(e) == seq_sum(entry_slots(e)) % 8,
        seq_sum(entry_slots(e)) % 8 == 0 ==> deviation_sum(e) == 0,
        forall|i: int| 0 <= i < 8 ==> 0 <= #[trigger] e.mean_slot_deviation[i] <= 7,
{
    let v = entry_slots(e);
    lemma_sum8(v);
    let t = seq_sum(v);
    assert(t == 8 * e.mean + deviation_sum(e));
    assert(e.mean == t / 8);
    assert(deviation_sum(e) == t % 8);
}

/// The result of applying `a` to a slot of level `old`.
pub open spec fn gain(powerful_cap: int, pinnacle_cap: int, a: Action, old: int) -> int {
    if old < powerful_cap {
        let raised = old + a.powerful_gain;
        let boundary = powerful_cap + a.pinnacle_gain;
        if raised < boundary {
            raised
        } else {
            boundary
        }
    } else if old < pinnacle_cap {
        let raised = old + a.pinnacle_gain;
        if raised < pinnacle_cap {
            raised
        } else {
            pinnacle_cap
        }
    } else {
        pinnacle_cap
    }
}

/// What `make_config` reports for an action catalog under valid caps: the first action whose
/// gains are out of range or whose weights do not sum to `PMF_DENOMINATOR`.
pub open spec fn catalog_error(
    actions: Seq<Action>,
    powerful_cap: int,
    pinnacle_cap: int,
    i: int,
) -> Option<ConfigError>
    decreases actions.len() - i,
{
    if i < 0 || i >= actions.len() {
        None
    } else if !gains_ok(actions[i], powerful_cap, pinnacle_cap) {
        Some(ConfigError::GainOutOfRange(i as usize))
    } else if pmf_total(actions[i].pmf) != PMF_DENOMINATOR {
        Some(ConfigError::ProbabilityNotOne(i as usize))
    } else {
        catalog_error(actions, powerful_cap, pinnacle_cap, i + 1)
    }
}

/// What `make_config` reports, if anything, for the given caps and catalog.
pub open spec fn config_error(
    start: PowerLevel,
    powerful_cap: PowerLevel,
    pinnacle_cap: PowerLevel,
    actions: Seq<Action>,
) -> Option<ConfigError> {
    if !caps_ok(start, powerful_cap, pinnacle_cap) {
        Some(ConfigError::InvalidCaps)
    } else if actions.len() > MAX_ACTIONS {
        Some(ConfigError::TooManyActions)
    } else {
        catalog_error(actions, powerful_cap as int, pinnacle_cap as int, 0)
    }
}

/// A tabled state: its mean lies in `[start, pinnacle_cap)`, its offsets are non-negative with a
/// sum below 8, and no slot passes the pinnacle cap.
pub open spec fn tabled_entry(e: StateEntry, start: int, pinnacle_cap: int) -> bool {
    &&& start <= e.mean < pinnacle_cap
    &&& forall|i: int| 0 <= i < 8 ==> 0 <= #[trigger] e.mean_slot_deviation[i]
    &&& forall|i: int| 0 <= i < 8 ==> e.mean + #[trigger] e.mean_slot_deviation[i] <= pinnacle_cap
    &&& e.mean_slot_deviation[0] + e.mean_slot_deviation[1] + e.mean_slot_deviation[2]
        + e.mean_slot_deviation[3] + e.mean_slot_deviation[4] + e.mean_slot_deviation[5]
        + e.mean_slot_deviation[6] + e.mean_slot_deviation[7] < 8
}

/// The offsets of a state as counters.
pub open spec fn offsets_of(e: StateEntry) -> Seq<u8> {
    Seq::new(8, |i: int| e.mean_slot_deviation[i] as u8)
}

/// `e` is one of the states in `entries`.
pub open spec fn has_entry(entries: Seq<StateEntry>, e: StateEntry) -> bool {
    exists|i: int| 0 <= i < entries.len() && entries[i] == e
}

/// Pushing keeps every state and adds the pushed one.
proof fn lemma_has_entry_push(entries: Seq<StateEntry>, e: StateEntry)
    ensures
        forall|x: StateEntry| #[trigger] has_entry(entries, x) ==> has_entry(entries.push(e), x),
        has_entry(entries.push(e), e),
{
    assert forall|x: StateEntry| #[trigger] has_entry(entries, x) implies has_entry(entries.push(e), x) by {
        let i = choose|i: int| 0 <= i < entries.len() && entries[i] == x;
        assert(entries.push(e)[i] == x);
    }
    assert(entries.push(e)[entries.len() as int] == e);
}

/// Non-negative offsets summing below 8 form a composition of eight parts.
proof fn lemma_offsets_composition(e: StateEntry)
    requires
        forall|i: int| 0 <= i < 8 ==> 0 <= #[trigger] e.mean_slot_deviation[i],
        e.mean_slot_deviation[0] + e.mean_slot_deviation[1] + e.mean_slot_deviation[2]
            + e.mean_slot_deviation[3] + e.mean_slot_deviation[4] + e.mean_slot_deviation[5]
            + e.mean_slot_deviation[6] + e.mean_slot_deviation[7] < 8,
    ensures
        is_composition(offsets_of(e), 8, 8),
{
    let v = offsets_of(e);
    lemma_total8(v);
    assert forall|i: int| 0 <= i < 8 implies v[i] as int == e.mean_slot_deviation[i] as int by {
        assert(0 <= e.mean_slot_deviation[i]);
    }
}

/// No fault is reported from `i` on exactly when every action from `i` on is accepted.
proof fn lemma_catalog_error_none(
    actions: Seq<Action>,
    powerful_cap: int,
    pinnacle_cap: int,
    i: int,
)
    requires
        0 <= i <= actions.len(),
    ensures
        catalog_error(actions, powerful_cap, pinnacle_cap, i) is None <==> forall|j: int|
            i <= j < actions.len() ==> action_ok(#[trigger] actions[j], powerful_cap, pinnacle_cap),
    decreases actions.len() - i,
{
    if i < actions.len() {
        lemma_catalog_error_none(actions, powerful_cap, pinnacle_cap, i + 1);
    }
}

/// The sum of a composition of eight parts, written out.
proof fn lemma_total8(v: Seq<u8>)
    requires
        v.len() == 8,
    ensures
        seq_total(v) == v[0] + v[1] + v[2] + v[3] + v[4] + v[5] + v[6] + v[7],
{
    reveal_with_fuel(seq_total, 9);
    let v4 = v.drop_first().drop_first().drop_first().drop_first();
    assert(v4.drop_first().drop_first().drop_first().drop_first().len() == 0);
}

/// Checks caps and catalog, reporting the first fault that `config_error` names.
pub fn validate(
    powerful_start: PowerLevel,
    powerful_cap: PowerLevel,
    pinnacle_cap: PowerLevel,
    actions: &Vec<Action>,
) -> (r: Result<(), ConfigError>)
    ensures
        r is Ok <==> config_error(powerful_start, powerful_cap, pinnacle_cap, actions@) is None,
        r is Err ==> config_error(powerful_start, powerful_cap, pinnacle_cap, actions@) == Some(r->Err_0),
        r is Ok ==> caps_ok(powerful_start, powerful_cap, pinnacle_cap) && actions@.len() <= MAX_ACTIONS,
{
    if !(0 <= powerful_start && 0 <= powerful_cap && powerful_cap <= pinnacle_cap && pinnacle_cap <= MAX_LEVEL) {
        return Err(ConfigError::InvalidCaps);
    }
    if actions.len() > MAX_ACTIONS {
        return Err(ConfigError::TooManyActions);
    }
    let mut i: usize = 0;
    while i < actions.len()
        invariant
            i <= actions@.len(),
            actions@.len() <= MAX_ACTIONS,
            caps_ok(powerful_start, powerful_cap, pinnacle_cap),
            forall|j: int| 0 <= j < i ==> action_ok(#[trigger] actions@[j], powerful_cap as int, pinnacle_cap as int),
            catalog_error(actions@, powerful_cap as int, pinnacle_cap as int, 0)
                == catalog_error(actions@, powerful_cap as int, pinnacle_cap as int, i as int),
        decreases actions@.len() - i,
    {
        let a = &actions[i];
        if !(0 <= a.powerful_gain && a.powerful_gain <= MAX_GAIN && 0 <= a.pinnacle_gain
            && a.pinnacle_gain <= MAX_GAIN && powerful_cap + a.pinnacle_gain <= pinnacle_cap) {
            assert(catalog_error(actions@, powerful_cap as int, pinnacle_cap as int, i as int)
                == Some(ConfigError::GainOutOfRange(i)));
            return Err(ConfigError::GainOutOfRange(i));
        }
        let total: u64 = a.pmf[0] as u64 + a.pmf[1] as u64 + a.pmf[2] as u64 + a.pmf[3] as u64
            + a.pmf[4] as u64 + a.pmf[5] as u64 + a.pmf[6] as u64 + a.pmf[7] as u64;
        if total != PMF_DENOMINATOR as u64 {
            assert(catalog_error(actions@, powerful_cap as int, pinnacle_cap as int, i as int)
                == Some(ConfigError::ProbabilityNotOne(i)));
            return Err(ConfigError::ProbabilityNotOne(i));
        }
        i = i + 1;
    }
    proof {
        lemma_catalog_error_none(actions@, powerful_cap as int, pinnacle_cap as int, 0);
    }
    Ok(())

}

/// The caps and the catalog, as the value of a policy depends on them.
pub struct Rules {
    pub powerful_cap: int,
    pub pinnacle_cap: int,
    pub actions: Seq<Action>,
}

impl Rules {
    /// Rules the engine accepts.
    pub open spec fn ok(self) -> bool {
        &&& 0 <= self.powerful_cap <= self.pinnacle_cap <= MAX_LEVEL
        &&& self.actions.len() <= MAX_ACTIONS
        &&& forall|i: int|
            0 <= i < self.actions.len() ==> action_ok(#[trigger] self.actions[i], self.powerful_cap, self.pinnacle_cap)
    }

    /// The level of a slot at `old` after action `a` lands on it.
    pub open spec fn gain_of(self, a: int, old: int) -> int {
        gain(self.powerful_cap, self.pinnacle_cap, self.actions[a], old)
    }

    /// The slots after action `a` lands on slot `s` and the loadout is leveled.
    pub open spec fn next_slots(self, slots: Seq<int>, s: int, a: int) -> Seq<int> {
        flatten(slots.update(s, self.gain_of(a, slots[s])))
    }

    /// The gain of the slot that action `a` lands on.
    pub open spec fn reward(self, slots: Seq<int>, s: int, a: int) -> int {
        self.gain_of(a, slots[s]) - slots[s]
    }

}

impl Configuration {
    /// What `check` reports: a fault of caps or catalog, else the first tabled state out of range.
    pub open spec fn check_error(self) -> Option<ConfigError> {
        match config_error(self.powerful_start, self.powerful_cap, self.pinnacle_cap, self.actions@) {
            Some(e) => Some(e),
            None => self.entry_error(0),
        }
    }

    /// The first tabled state from index `i` on that is out of range.
    pub open spec fn entry_error(self, i: int) -> Option<ConfigError>
        decreases self.all_entries@.len() - i,
    {
        if i < 0 || i >= self.all_entries@.len() {
            None
        } else if !self.state_ok(self.all_entries@[i]) {
            Some(ConfigError::InvalidEntry(i as usize))
        } else {
            self.entry_error(i + 1)
        }
    }

    /// No state is reported from `i` on exactly when every state from `i` on is in range.
    proof fn lemma_entry_error_none(self, i: int)
        requires
            0 <= i <= self.all_entries@.len(),
        ensures
            self.entry_error(i) is None <==> forall|j: int|
                i <= j < self.all_entries@.len() ==> self.state_ok(#[trigger] self.all_entries@[j]),
        decreases self.all_entries@.len() - i,
    {
        if i < self.all_entries@.len() {
            self.lemma_entry_error_none(i + 1);
        }
    }

    /// Checks a configuration built by hand: `Ok` exactly when it is well formed.
    pub fn check(&self) -> (r: Result<(), ConfigError>)
        ensures
            r is Ok <==> self.wf(),
            r is Ok <==> self.check_error() is None,
            r is Err ==> self.check_error() == Some(r->Err_0),
    {
        proof {
            lemma_catalog_error_none(self.actions@, self.powerful_cap as int, self.pinnacle_cap as int, 0);
            self.lemma_entry_error_none(0);
        }
        match validate(self.powerful_start, self.powerful_cap, self.pinnacle_cap, &self.actions) {
            Ok(()) => {},
            Err(e) => {
                return Err(e);
            },
        }
        let mut i: usize = 0;
        while i < self.all_entries.len()
            invariant
                i <= self.all_entries@.len(),
                self.caps_valid(),
                forall|j: int| 0 <= j < i ==> self.state_ok(#[trigger] self.all_entries@[j]),
                self.entry_error(0) == self.entry_error(i as int),
                config_error(self.powerful_start, self.powerful_cap, self.pinnacle_cap, self.actions@) is None,
            decreases self.all_entries@.len() - i,
        {
            let e = self.all_entries[i];
            let mut k: usize = 0;
            let mut ok = true;
            while k < SLOT_COUNT
                invariant
                    k <= 8,
                    self.caps_valid(),
                    e == self.all_entries@[i as int],
                    ok <==> forall|j: int| 0 <= j < k ==> 0 <= #[trigger] entry_slots(e)[j] <= self.pinnacle_cap,
                decreases 8 - k,
            {
                let slot = e.mean as i32 + e.mean_slot_deviation[k] as i32;
                assert(entry_slots(e)[k as int] == slot as int);
                if slot < 0 || slot > self.pinnacle_cap as i32 {
                    ok = false;
                }
                k = k + 1;
            }
            if !ok {
                proof {
                    let w = choose|j: int| 0 <= j < 8 && !(0 <= #[trigger] entry_slots(e)[j] <= self.pinnacle_cap);
                    assert(!self.state_ok(self.all_entries@[i as int]));
                    assert(self.entry_error(i as int) == Some(ConfigError::InvalidEntry(i)));
                    assert(config_error(self.powerful_start, self.powerful_cap, self.pinnacle_cap, self.actions@) is None);
                }
                return Err(ConfigError::InvalidEntry(i));
            }
            assert(self.state_ok(e)) by {
                assert forall|j: int| 0 <= j < 8 implies 0 <= #[trigger] entry_slots(e)[j] <= self.pinnacle_cap by {}
            }
            i = i + 1;
        }
        Ok(())
    }

    /// Checks the caps and the catalog and tables every state with a mean from
    /// `powerful_start` up to below `pinnacle_cap`.
    pub fn make_config(
        powerful_start: PowerLevel,
        powerful_cap: PowerLevel,
        pinnacle_cap: PowerLevel,
        actions: Vec<Action>,
    ) -> (r: Result<Configuration, ConfigError>)
        ensures
            match r {
                Ok(c) => {
                    &&& config_error(powerful_start, powerful_cap, pinnacle_cap, actions@) is None
                    &&& c.wf()
                    &&& c.powerful_start == powerful_start
                    &&& c.powerful_cap == powerful_cap
                    &&& c.pinnacle_cap == pinnacle_cap
                    &&& c.actions@ == actions@
                    &&& forall|i: int| 0 <= i < c.all_entries@.len() ==> tabled_entry(#[trigger] c.all_entries@[i], powerful_start as int, pinnacle_cap as int)
                    &&& forall|e: StateEntry| tabled_entry(e, powerful_start as int, pinnacle_cap as int) ==> #[trigger] has_entry(c.all_entries@, e)
                },
                Err(e) => config_error(powerful_start, powerful_cap, pinnacle_cap, actions@) == Some(e),
            },
    {
        match validate(powerful_start, powerful_cap, pinnacle_cap, &actions) {
            Ok(()) => {},
            Err(e) => {
                return Err(e);
            },
        }
        proof {
            lemma_catalog_error_none(actions@, powerful_cap as int, pinnacle_cap as int, 0);
        }

        let msds = compositions(8, SLOT_COUNT);
        let ghost start = powerful_start as int;
        let ghost pin = pinnacle_cap as int;
        let mut entries: Vec<StateEntry> = Vec::new();
        let mut m: usize = 0;
        while m < msds.len()
            invariant
                m <= msds@.len(),
                start == powerful_start as int,
                pin == pinnacle_cap as int,
                0 <= powerful_start,
                pinnacle_cap <= MAX_LEVEL,
                forall|v: Seq<u8>| #[trigger] holds(msds@, v) <==> is_composition(v, 8, 8),
                forall|j: int| 0 <= j < entries@.len() ==> tabled_entry(#[trigger] entries@[j], start, pin),
                forall|e: StateEntry, j: int|
                    #![trigger has_entry(entries@, e), msds@[j]]
                    0 <= j < m && tabled_entry(e, start, pin) && offsets_of(e) == msds@[j]@
                        ==> has_entry(entries@, e),
            decreases msds@.len() - m,
        {
            let msd = &msds[m];
            assert(holds(msds@, msd@));
            proof {
                lemma_total8(msd@);
            }
            let mut mean: i16 = powerful_start;
            while mean < pinnacle_cap
                invariant
                    m < msds@.len(),
                    msd == msds@[m as int],
                    start == powerful_start as int,
                    pin == pinnacle_cap as int,
                    is_composition(msd@, 8, 8),
                    seq_total(msd@) == msd@[0] + msd@[1] + msd@[2] + msd@[3] + msd@[4] + msd@[5] + msd@[6] + msd@[7],
                    powerful_start <= mean,
                    mean <= pinnacle_cap || mean == powerful_start,
                    0 <= powerful_start,
                    pinnacle_cap <= MAX_LEVEL,
                    forall|j: int| 0 <= j < entries@.len() ==> tabled_entry(#[trigger] entries@[j], start, pin),
                    forall|e: StateEntry, j: int|
                        #![trigger has_entry(entries@, e), msds@[j]]
                        0 <= j < m && tabled_entry(e, start, pin) && offsets_of(e) == msds@[j]@
                            ==> has_entry(entries@, e),
                    forall|e: StateEntry|
                        tabled_entry(e, start, pin) && offsets_of(e) == msd@ && e.mean < mean
                            ==> #[trigger] has_entry(entries@, e),
                decreases pinnacle_cap - mean,
            {
                let mut fits = true;
                let mut msd_arr: [i8; 8] = [0i8; 8];
                let mut k: usize = 0;
                while k < SLOT_COUNT
                    invariant
                        k <= 8,
                        0 <= mean < pinnacle_cap <= MAX_LEVEL,
                        msd == msds@[m as int],
                        msd@.len() == 8,
                        forall|j: int| 0 <= j < 8 ==> #[trigger] msd@[j] < 8,
                        forall|j: int| 0 <= j < k ==> #[trigger] msd_arr[j] as int == msd@[j] as int,
                        fits <==> forall|j: int| 0 <= j < k ==> #[trigger] msd@[j] + mean <= pinnacle_cap,
                    decreases 8 - k,
                {
                    if msd[k] as i16 + mean > pinnacle_cap {
                        fits = false;
                    }
                    msd_arr[k] = msd[k] as i8;
                    k = k + 1;
                }
                let ghost before = entries@;
                if fits {
                    let e = StateEntry { mean: mean as u16, mean_slot_deviation: msd_arr };
                    entries.push(e);
                    proof {
                        assert forall|j: int| 0 <= j < entries@.len() implies tabled_entry(#[trigger] entries@[j], start, pin) by {
                            if j == entries@.len() - 1 {
                                assert(entries@[j] == e);
                            }
                        }
                        lemma_has_entry_push(before, e);
                        assert forall|x: StateEntry| tabled_entry(x, start, pin) && offsets_of(x) == msd@ && x.mean == mean
                            implies #[trigger] has_entry(entries@, x) by {
                            assert forall|j: int| 0 <= j < 8 implies x.mean_slot_deviation[j] == msd_arr[j] by {
                                assert(offsets_of(x)[j] == msd@[j]);
                            }
                            assert(x.mean_slot_deviation =~= msd_arr);
                            assert(entries@[entries@.len() - 1] == x);
                        }
                        assert(forall|x: StateEntry| #[trigger] has_entry(before, x) ==> has_entry(entries@, x));
                    }
                } else {
                    proof {
                        assert forall|x: StateEntry| tabled_entry(x, start, pin) && offsets_of(x) == msd@
                            implies x.mean != mean by {
                            if x.mean == mean {
                                assert forall|j: int| 0 <= j < 8 implies #[trigger] msd@[j] + mean <= pinnacle_cap by {
                                    assert(offsets_of(x)[j] == msd@[j]);
                                    assert(x.mean + x.mean_slot_deviation[j] <= pin);
                                }
                            }
                        }
                        assert(forall|x: StateEntry| #[trigger] has_entry(before, x) ==> has_entry(entries@, x));
                    }
                }
                proof {
                    assert forall|e: StateEntry, j: int|
                        #![trigger has_entry(entries@, e), msds@[j]]
                        0 <= j < m && tabled_entry(e, start, pin) && offsets_of(e) == msds@[j]@
                            implies has_entry(entries@, e) by {
                        assert(has_entry(before, e));
                    }
                    assert forall|e: StateEntry|
                        tabled_entry(e, start, pin) && offsets_of(e) == msd@ && e.mean < mean + 1
                            implies #[trigger] has_entry(entries@, e) by {
                        if e.mean < mean {
                            assert(has_entry(before, e));
                        }
                    }
                }
                mean = mean + 1;
            }
            proof {
                assert forall|e: StateEntry, j: int|
                    #![trigger has_entry(entries@, e), msds@[j]]
                    0 <= j < m + 1 && tabled_entry(e, start, pin) && offsets_of(e) == msds@[j]@
                        implies has_entry(entries@, e) by {
                    if j == m {
                        assert(e.mean < mean);
                    }
                }
            }
            m = m + 1;
        }
        proof {
            assert forall|e: StateEntry| tabled_entry(e, start, pin) implies #[trigger] has_entry(entries@, e) by {
                lemma_offsets_composition(e);
                assert(holds(msds@, offsets_of(e)));
                let j = choose|j: int| 0 <= j < msds@.len() && msds@[j]@ == offsets_of(e);
            }
        }

        Ok(Configuration { powerful_start, powerful_cap, pinnacle_cap, actions, all_entries: entries })
    }

    /// The usage bound of each action, in catalog order: the full budget.
    pub fn arities(&self) -> (r: Vec<u8>)
        ensures
            r@.len() == self.actions@.len(),
            forall|i: int| 0 <= i < r@.len() ==> #[trigger] r@[i] == self.actions@[i].arity,
    {
        let mut r: Vec<u8> = Vec::new();
        let mut i: usize = 0;
        while i < self.actions.len()
            invariant
                i <= self.actions@.len(),
                r@.len() == i,
                forall|j: int| 0 <= j < i ==> #[trigger] r@[j] == self.actions@[j].arity,
            decreases self.actions@.len() - i,
        {
            r.push(self.actions[i].arity);
            i = i + 1;
        }
        r
    }

    /// The caps are accepted.
    pub open spec fn caps_valid(self) -> bool {
        caps_ok(self.powerful_start, self.powerful_cap, self.pinnacle_cap)
    }

    /// At most `MAX_ACTIONS` actions, each accepted.
    pub open spec fn actions_valid(self) -> bool {
        &&& self.actions@.len() <= MAX_ACTIONS
        &&& forall|i: int|
            0 <= i < self.actions@.len() ==> action_ok(
                #[trigger] self.actions@[i],
                self.powerful_cap as int,
                self.pinnacle_cap as int,
            )
    }

    /// Every slot of `e` lies between 0 and the pinnacle cap.
    pub open spec fn state_ok(self, e: StateEntry) -> bool {
        within(entry_slots(e), 0, self.pinnacle_cap as int)
    }

    /// Caps, catalog and every tabled state are accepted.
    pub open spec fn wf(self) -> bool {
        &&& self.caps_valid()
        &&& self.actions_valid()
        &&& forall|i: int|
            0 <= i < self.all_entries@.len() ==> self.state_ok(#[trigger] self.all_entries@[i])
    }

    /// The rules the engine plays by: the two caps and the catalog.
    pub open spec fn rules(self) -> Rules {
        Rules {
            powerful_cap: self.powerful_cap as int,
            pinnacle_cap: self.pinnacle_cap as int,
            actions: self.actions@,
        }
    }

    /// Applies action `act_idx` landing on slot `slot_idx`: returns the leveled state in
    /// canonical form, the budget with one use of the action spent, and the slot's gain.
    pub fn update_state_entry(
        &self,
        se: &StateEntry,
        aa: &Vec<u8>,
        slot_idx: usize,
        act_idx: usize,
    ) -> (r: (StateEntry, Vec<u8>, PowerLevel))
        requires
            self.caps_valid(),
            self.actions_valid(),
            self.state_ok(*se),
            slot_idx < 8,
            act_idx < self.actions@.len(),
            act_idx < aa@.len(),
            aa@[act_idx as int] > 0,
        ensures
            entry_slots(r.0) == self.rules().next_slots(entry_slots(*se), slot_idx as int, act_idx as int),
            canonical(r.0),
            self.state_ok(r.0),
            r.1@ == aa@.update(act_idx as int, (aa@[act_idx as int] - 1) as u8),
            r.2 as int == self.rules().reward(entry_slots(*se), slot_idx as int, act_idx as int),
            r.2 >= 0,
    {
        let action = &self.actions[act_idx];
        let mut new_aa = aa.clone();
        new_aa.set(act_idx, aa[act_idx] - 1);

        let ghost pin = self.pinnacle_cap as int;
        let ghost v = entry_slots(*se);
        let mut slots: SlotTable = [0i16; 8];
        let mut i: usize = 0;
        while i < SLOT_COUNT
            invariant
                i <= 8,
                v == entry_slots(*se),
                within(v, 0, pin),
                pin <= MAX_LEVEL,
                forall|j: int| 0 <= j < i ==> #[trigger] slots[j] as int == v[j],
                forall|j: int| i <= j < 8 ==> #[trigger] slots[j] == 0,
            decreases 8 - i,
        {
            assert(0 <= v[i as int] <= pin);
            slots[i] = (se.mean as i16) + (se.mean_slot_deviation[i] as i16);
            i = i + 1;
        }
        assert(slot_values(slots) =~= v);

        let old_slot = slots[slot_idx];
        let new_slot = power_gain(self, action, old_slot);
        let reward = new_slot - old_slot;
        slots[slot_idx] = new_slot;
        let ghost raised = v.update(slot_idx as int, new_slot as int);
        assert(slot_values(slots) =~= raised);
        assert(within(raised, 0, pin));

        let flat = full_flatten(slots);
        let new_mean = current_level(flat);
        let ghost f = slot_values(flat);
        proof {
            lemma_flatten_within(raised, 0, pin);
            lemma_sum8(f);
        }
        let mut new_msd: [i8; 8] = [0i8; 8];
        let mut k: usize = 0;
        while k < SLOT_COUNT
            invariant
                k <= 8,
                f == slot_values(flat),
                !has_slot_below(f, level_of(f)),
                new_mean as int == level_of(f),
                seq_sum(f) == f[0] + f[1] + f[2] + f[3] + f[4] + f[5] + f[6] + f[7],
                within(f, 0, pin),
                forall|j: int| 0 <= j < k ==> #[trigger] new_msd[j] as int == f[j] - new_mean,
            decreases 8 - k,
        {
            assert(!(f[k as int] < level_of(f)));
            assert forall|j: int| 0 <= j < 8 implies #[trigger] f[j] >= new_mean by {
                assert(!(f[j] < level_of(f)));
            }
            assert(f[k as int] - new_mean <= 7);
            new_msd[k] = (flat[k] - new_mean) as i8;
            k = k + 1;
        }
        let new_se = StateEntry { mean: new_mean as u16, mean_slot_deviation: new_msd };
        assert(entry_slots(new_se) =~= f);
        assert forall|j: int| 0 <= j < 8 implies 0 <= #[trigger] new_se.mean_slot_deviation[j] by {
            assert(!(f[j] < level_of(f)));
        }
        (new_se, new_aa, reward)
    }
}

/// The level of a slot of level `old_slot` after `action` lands on it: below the soft cap it
/// gains the powerful amount but stops at the soft cap plus the pinnacle amount; from the soft
/// cap on it gains the pinnacle amount, up to the pinnacle cap; at the pinnacle cap it stays.
pub fn power_gain(config: &Configuration, action: &Action, old_slot: PowerLevel) -> (r: PowerLevel)
    requires
        config.caps_valid(),
        gains_ok(*action, config.powerful_cap as int, config.pinnacle_cap as int),
        old_slot <= config.pinnacle_cap,
        old_slot >= -MAX_LEVEL,
    ensures
        r as int == gain(
            config.powerful_cap as int,
            config.pinnacle_cap as int,
            *action,
            old_slot as int,
        ),
{
    if old_slot < config.powerful_cap {
        let raised = old_slot + action.powerful_gain;
        let boundary = config.powerful_cap + action.pinnacle_gain;
        if raised < boundary {
            raised
        } else {
            boundary
        }
    } else if old_slot < config.pinnacle_cap {
        let raised = old_slot + action.pinnacle_gain;
        if raised < config.pinnacle_cap {
            raised
        } else {
            config.pinnacle_cap
        }
    } else {
        config.pinnacle_cap
    }
}

/// A gain never lowers a slot, never lifts it by more than the action's larger amount, is
/// monotonic in the slot's level, and never passes the pinnacle cap.
pub proof fn lemma_power_gain_monotonic(
    powerful_cap: int,
    pinnacle_cap: int,
    a: Action,
    x: int,
    y: int,
)
    requires
        0 <= powerful_cap <= pinnacle_cap,
        gains_ok(a, powerful_cap, pinnacle_cap),
        x <= y <= pinnacle_cap,
    ensures
        gain(powerful_cap, pinnacle_cap, a, x) <= gain(powerful_cap, pinnacle_cap, a, y),
        gain(powerful_cap, pinnacle_cap, a, y) <= pinnacle_cap,
        x <= gain(powerful_cap, pinnacle_cap, a, x),
        gain(powerful_cap, pinnacle_cap, a, x) - x <= MAX_GAIN,
{
}

} // verus!
