use vstd::prelude::*;

use dashmap::DashMap;

use crate::gear::{
    entry_slots, gains_ok, lemma_power_gain_monotonic, pmf_total, Action, ConfigError,
    Configuration, Rules, StateEntry, StateTransition, MAX_ACTIONS, MAX_GAIN, PMF_DENOMINATOR,
};
use crate::levels::{lemma_flatten_within, level_of, within};
use crate::utils::{lemma_total_nonneg, lemma_total_update, seq_total, vec_total};

verus! {

/// Scores are fixed-point: one power level of expected gain is this many score units.
pub const SCORE_SCALE: u64 = 1_000_000;

/// No action is chosen: the loadout is at the pinnacle cap or the budget is spent.
pub open spec fn terminal(c: Rules, mean: int, b: Seq<u8>) -> bool {
    mean >= c.pinnacle_cap || seq_total(b) == 0
}

/// The budget after one use of action `a`.
pub open spec fn spent(b: Seq<u8>, a: int) -> Seq<u8> {
    b.update(a, (b[a] - 1) as u8)
}

/// Expected score units from a loadout with level `mean` and slots `slots`, under budget `b`,
/// when every later choice is optimal.
pub open spec fn value(c: Rules, mean: int, slots: Seq<int>, b: Seq<u8>) -> int
    decreases seq_total(b), 2int, 0int,
{
    if terminal(c, mean, b) {
        0
    } else {
        best(c, slots, b, b.len() as int).1
    }
}

/// The choice among the actions before `k` with uses left: the last one that reaches the
/// highest expected score, scanning from `(0, 0)`; as `(action, score)`.
pub open spec fn best(c: Rules, slots: Seq<int>, b: Seq<u8>, k: int) -> (int, int)
    decreases seq_total(b), 1int, k,
{
    if k <= 0 {
        (0, 0)
    } else {
        let prev = best(c, slots, b, k - 1);
        if k - 1 < b.len() && b[k - 1] > 0 {
            let v = outcome_sum(c, slots, b, k - 1, 8) / (PMF_DENOMINATOR as int);
            if v >= prev.1 {
                (k - 1, v)
            } else {
                prev
            }
        } else {
            prev
        }
    }
}

/// Weighted outcomes of action `a` over the slots before `n`: for each slot it may land on,
/// its weight times the slot's gain in score units plus the value of what follows.
pub open spec fn outcome_sum(c: Rules, slots: Seq<int>, b: Seq<u8>, a: int, n: int) -> int
    decreases seq_total(b), 0int, n,
{
    if n <= 0 || n > 8 || !(0 <= a < b.len()) || a >= c.actions.len() || b[a] == 0 {
        0
    } else {
        let s = n - 1;
        let w = c.actions[a].pmf[s] as int;
        let here = if w > 0 {
            let ns = c.next_slots(slots, s, a);
            proof {
                lemma_total_update(b, a, (b[a] - 1) as u8);
                lemma_total_nonneg(spent(b, a));
            }
            w * (c.reward(slots, s, a) * SCORE_SCALE + value(c, level_of(ns), ns, spent(b, a)))
        } else {
            0
        };
        outcome_sum(c, slots, b, a, n - 1) + here
    }
}

/// The expected score of using action `a` now, in score units, rounded down.
pub open spec fn action_value(c: Rules, slots: Seq<int>, b: Seq<u8>, a: int) -> int {
    outcome_sum(c, slots, b, a, 8) / (PMF_DENOMINATOR as int)
}

/// Sum of the first `n` weights of a slot distribution.
pub open spec fn pmf_prefix(p: [u32; 8], n: int) -> int
    decreases n,
{
    if n <= 0 {
        0
    } else {
        pmf_prefix(p, n - 1) + p[n - 1]
    }
}

/// Largest score a budget can earn: every use gains at most `MAX_GAIN` levels.
pub open spec fn score_bound(b: Seq<u8>) -> int {
    SCORE_SCALE * MAX_GAIN * seq_total(b)
}

/// The configuration and loadout are ones the engine works on.
pub open spec fn engine_ok(c: Rules, slots: Seq<int>, b: Seq<u8>) -> bool {
    &&& c.ok()
    &&& slots.len() == 8
    &&& within(slots, 0, c.pinnacle_cap)
    &&& b.len() == c.actions.len()
}

/// The choice is optimal: no action with uses left has a higher expected score; when some
/// action has uses left, the chosen one has, reaches the chosen score, and every later action
/// with uses left scores strictly less.
pub proof fn lemma_best_is_max(c: Rules, slots: Seq<int>, b: Seq<u8>, k: int)
    requires
        engine_ok(c, slots, b),
        0 <= k <= b.len(),
    ensures
        !(exists|a: int| 0 <= a < k && #[trigger] b[a] > 0) ==> best(c, slots, b, k) == (0int, 0int),
        forall|a: int| 0 <= a < k && b[a] > 0 ==> #[trigger] action_value(c, slots, b, a) <= best(c, slots, b, k).1,
        (exists|a: int| 0 <= a < k && b[a] > 0) ==> {
            let r = best(c, slots, b, k);
            &&& 0 <= r.0 < k
            &&& b[r.0] > 0
            &&& action_value(c, slots, b, r.0) == r.1
            &&& forall|a: int| r.0 < a < k && b[a] > 0 ==> #[trigger] action_value(c, slots, b, a) < r.1
        },
    decreases k,
{
    if k > 0 {
        lemma_best_is_max(c, slots, b, k - 1);
        let prev = best(c, slots, b, k - 1);
        if b[k - 1] > 0 {
            lemma_outcome_bounds(c, slots, b, k - 1, 8);
            let o = outcome_sum(c, slots, b, k - 1, 8);
            assert(0 <= o / (PMF_DENOMINATOR as int)) by (nonlinear_arith)
                requires 0 <= o, PMF_DENOMINATOR == 840;
            assert(b[k - 1] > 0);
        } else {
            if exists|a: int| 0 <= a < k && #[trigger] b[a] > 0 {
                let a = choose|a: int| 0 <= a < k && #[trigger] b[a] > 0;
                assert(0 <= a < k - 1 && b[a] > 0);
            }
            if !(exists|a: int| 0 <= a < k - 1 && #[trigger] b[a] > 0) {
                assert forall|a: int| 0 <= a < k implies !(#[trigger] b[a] > 0) by {
                    if a < k - 1 {
                        assert(!(0 <= a < k - 1 && b[a] > 0));
                    }
                }
            }
        }
    }
}

/// Partial sums of weights grow up to the full sum.
proof fn lemma_pmf_prefix(p: [u32; 8], n: int)
    requires
        0 <= n <= 8,
    ensures
        0 <= pmf_prefix(p, n) <= pmf_prefix(p, 8),
        pmf_prefix(p, 8) == pmf_total(p),
    decreases 8 - n,
{
    reveal_with_fuel(pmf_prefix, 9);
    if n < 8 {
        lemma_pmf_prefix(p, n + 1);
    }
}

/// A transition keeps the loadout inside the engine's range and its gain between 0 and
/// `MAX_GAIN`.
pub proof fn lemma_step_ok(c: Rules, slots: Seq<int>, b: Seq<u8>, s: int, a: int)
    requires
        engine_ok(c, slots, b),
        0 <= s < 8,
        0 <= a < b.len(),
        b[a] > 0,
    ensures
        engine_ok(c, c.next_slots(slots, s, a), spent(b, a)),
        0 <= c.reward(slots, s, a) <= MAX_GAIN,
        seq_total(spent(b, a)) == seq_total(b) - 1,
{
    let pin = c.pinnacle_cap;
    let old = slots[s];
    assert(gains_ok(c.actions[a], c.powerful_cap, pin));
    lemma_power_gain_monotonic(c.powerful_cap, pin, c.actions[a], old, pin);
    let raised = slots.update(s, c.gain_of(a, old));
    assert(within(raised, 0, pin));
    lemma_flatten_within(raised, 0, pin);
    lemma_total_update(b, a, (b[a] - 1) as u8);
}

/// Scores lie between 0 and `score_bound` of the budget.
pub proof fn lemma_value_bounds(c: Rules, mean: int, slots: Seq<int>, b: Seq<u8>)
    requires
        engine_ok(c, slots, b),
    ensures
        0 <= value(c, mean, slots, b) <= score_bound(b),
    decreases seq_total(b), 2int, 0int,
{
    lemma_total_nonneg(b);
    if !terminal(c, mean, b) {
        lemma_best_bounds(c, slots, b, b.len() as int);
    }
}

/// The chosen score lies between 0 and `score_bound`, and the chosen action before `k`.
pub proof fn lemma_best_bounds(c: Rules, slots: Seq<int>, b: Seq<u8>, k: int)
    requires
        engine_ok(c, slots, b),
        0 <= k <= b.len(),
    ensures
        0 <= best(c, slots, b, k).1 <= score_bound(b),
        0 <= best(c, slots, b, k).0 < (if k > 0 { k } else { 1 }),
    decreases seq_total(b), 1int, k,
{
    lemma_total_nonneg(b);
    if k > 0 {
        lemma_best_bounds(c, slots, b, k - 1);
        if b[k - 1] > 0 {
            lemma_outcome_bounds(c, slots, b, k - 1, 8);
            let a = c.actions[k - 1];
            assert(pmf_total(a.pmf) == PMF_DENOMINATOR);
            lemma_pmf_prefix(a.pmf, 8);
            let o = outcome_sum(c, slots, b, k - 1, 8);
            let sb = score_bound(b);
            assert(o / (PMF_DENOMINATOR as int) <= sb) by (nonlinear_arith)
                requires 0 <= o <= 840 * sb, PMF_DENOMINATOR == 840;
            assert(0 <= o / (PMF_DENOMINATOR as int)) by (nonlinear_arith)
                requires 0 <= o, PMF_DENOMINATOR == 840;
        }
    }
}

/// Weighted outcomes are at most the weights so far times `score_bound`.
pub proof fn lemma_outcome_bounds(c: Rules, slots: Seq<int>, b: Seq<u8>, a: int, n: int)
    requires
        engine_ok(c, slots, b),
        0 <= a < b.len(),
        0 <= n <= 8,
    ensures
        0 <= outcome_sum(c, slots, b, a, n) <= pmf_prefix(c.actions[a].pmf, n) * score_bound(b),
    decreases seq_total(b), 0int, n,
{
    lemma_total_nonneg(b);
    let p = c.actions[a].pmf;
    if n > 0 && b[a] > 0 {
        lemma_outcome_bounds(c, slots, b, a, n - 1);
        let s = n - 1;
        let w = p[s] as int;
        let prev = outcome_sum(c, slots, b, a, n - 1);
        let sb = score_bound(b);
        assert(pmf_prefix(p, n) == pmf_prefix(p, n - 1) + w);
        if w > 0 {
            lemma_step_ok(c, slots, b, s, a);
            let ns = c.next_slots(slots, s, a);
            let nb = spent(b, a);
            lemma_total_nonneg(nb);
            assert(seq_total(nb) < seq_total(b));
            lemma_value_bounds(c, level_of(ns), ns, nb);
            let r = c.reward(slots, s, a);
            let v = value(c, level_of(ns), ns, nb);
            let t = seq_total(b);
            assert(sb == SCORE_SCALE * MAX_GAIN * t);
            assert(score_bound(nb) == SCORE_SCALE * MAX_GAIN * (t - 1));
            assert(0 <= w * (r * SCORE_SCALE + v) <= w * sb) by (nonlinear_arith)
                requires
                    0 <= r <= MAX_GAIN,
                    0 <= v <= SCORE_SCALE * MAX_GAIN * (t - 1),
                    sb == SCORE_SCALE * MAX_GAIN * t,
                    w > 0,
                    SCORE_SCALE == 1_000_000,
                    MAX_GAIN == 1000;
            assert(pmf_prefix(p, n) * sb == pmf_prefix(p, n - 1) * sb + w * sb) by (nonlinear_arith)
                requires pmf_prefix(p, n) == pmf_prefix(p, n - 1) + w;
        } else {
            assert(pmf_prefix(p, n - 1) * sb <= pmf_prefix(p, n) * sb) by (nonlinear_arith)
                requires pmf_prefix(p, n) == pmf_prefix(p, n - 1) + w, w >= 0, sb >= 0;
        }
    } else if n > 0 {
        lemma_pmf_prefix(p, n);
        assert(0 <= pmf_prefix(p, n) * score_bound(b)) by (nonlinear_arith)
            requires 0 <= pmf_prefix(p, n), 0 <= score_bound(b);
    }
}

/// `dashmap::DashMap`, declared so that it can stand in fields and signatures; its contents
/// are known only through `memo_contents`.
#[verifier::external_type_specification]
#[verifier::external_body]
#[verifier::reject_recursive_types(K)]
#[verifier::reject_recursive_types(V)]
#[verifier::reject_recursive_types(S)]
pub struct ExDashMap<K, V, S>(DashMap<K, V, S>);

/// The memo table: budget, mean and offsets of a state, to chosen action and score.
pub type MemoTable = DashMap<(Vec<u8>, u16, [i8; 8]), (u8, u64)>;

/// A memo key as plain values: budget, mean, offsets.
pub type MemoKey = (Seq<u8>, u16, Seq<i8>);

/// What a memo table holds: budget, mean and offsets of a state, mapped to the chosen action
/// and its score.
pub uninterp spec fn memo_contents(
    m: DashMap<(Vec<u8>, u16, [i8; 8]), (u8, u64)>,
) -> Map<(Seq<u8>, u16, Seq<i8>), (u8, u64)>;

/// The key under which a state is tabled for a budget.
pub open spec fn memo_key(b: Seq<u8>, e: StateEntry) -> MemoKey {
    (b, e.mean, e.mean_slot_deviation@)
}

/// Relies on `dashmap::DashMap::new`: a new map holds nothing.
#[verifier::external_body]
fn memo_new() -> (r: MemoTable)
    ensures
        forall|k: MemoKey| !#[trigger] memo_contents(r).contains_key(k),
{
    DashMap::new()
}

/// Relies on `dashmap::DashMap::get`: it finds the value stored under an equal key; keys are
/// compared by std's equality on vectors, integers and arrays, element by element.
#[verifier::external_body]
fn memo_get(m: &MemoTable, b: &Vec<u8>, e: &StateEntry) -> (r: Option<(u8, u64)>)
    ensures
        r is None <==> !memo_contents(*m).contains_key(memo_key(b@, *e)),
        r is Some ==> memo_contents(*m)[memo_key(b@, *e)] == r->0,
{
    m.get(&(b.clone(), e.mean, e.mean_slot_deviation)).map(|r| *r.value())
}

/// Relies on `dashmap::DashMap::insert`: afterwards the key maps to the value and every other
/// key keeps its own.
#[verifier::external_body]
fn memo_insert(m: &mut MemoTable, b: &Vec<u8>, e: &StateEntry, v: (u8, u64))
    ensures
        memo_contents(*final(m)) == memo_contents(*old(m)).insert(memo_key(b@, *e), v),
{
    m.insert((b.clone(), e.mean, e.mean_slot_deviation), v);
}

/// The slots of a tabled key.
pub open spec fn key_slots(k: MemoKey) -> Seq<int> {
    Seq::new(8, |i: int| k.1 as int + k.2[i] as int)
}

/// The transition the engine owes for state `e` under budget `b`, whether or not it is terminal.
pub open spec fn choice(c: Rules, e: StateEntry, b: Seq<u8>) -> StateTransition {
    let r = best(c, entry_slots(e), b, b.len() as int);
    StateTransition { next_action: r.0 as u8, score: r.1 as u64 }
}

/// What `select_action` returns: nothing for a terminal state, else the owed transition.
pub open spec fn select_spec(c: Rules, e: StateEntry, b: Seq<u8>) -> Option<StateTransition> {
    if terminal(c, e.mean as int, b) {
        None
    } else {
        Some(choice(c, e, b))
    }
}

/// Every tabled entry is the transition owed for its key.
pub open spec fn memo_sound(c: Rules, m: Map<MemoKey, (u8, u64)>) -> bool {
    forall|k: MemoKey|
        #[trigger] m.contains_key(k) ==> {
            let r = best(c, key_slots(k), k.0, k.0.len() as int);
            k.2.len() == 8 ==> m[k] == (r.0 as u8, r.1 as u64)
        }
}

/// The transitions of every tabled state under one budget, with the rules they were computed
/// under. Only `Solver::build_states` makes one, so each transition is the one owed.
pub struct StateTable {
    budget: Vec<u8>,
    entries: Vec<StateEntry>,
    transitions: Vec<StateTransition>,
    powerful_cap: i16,
    pinnacle_cap: i16,
    actions: Vec<Action>,
}

impl StateTable {
    /// The budget the transitions were computed for.
    pub closed spec fn spec_budget(self) -> Seq<u8> {
        self.budget@
    }

    /// The states, in table order.
    pub closed spec fn spec_entries(self) -> Seq<StateEntry> {
        self.entries@
    }

    /// The transition of each state, in the same order.
    pub closed spec fn spec_transitions(self) -> Seq<StateTransition> {
        self.transitions@
    }

    /// The rules the transitions were computed under.
    pub closed spec fn spec_rules(self) -> Rules {
        Rules {
            powerful_cap: self.powerful_cap as int,
            pinnacle_cap: self.pinnacle_cap as int,
            actions: self.actions@,
        }
    }

    #[verifier::type_invariant]
    spec fn inv(self) -> bool {
        &&& self.entries@.len() == self.transitions@.len()
        &&& forall|i: int|
            0 <= i < self.entries@.len() ==> #[trigger] self.transitions@[i] == choice(
                self.spec_rules(),
                self.entries@[i],
                self.budget@,
            )
    }

    /// The budget the table is for.
    pub fn budget(&self) -> (r: &Vec<u8>)
        ensures
            r@ == self.spec_budget(),
    {
        &self.budget
    }

    /// Number of tabled states.
    pub fn len(&self) -> (r: usize)
        ensures
            r == self.spec_entries().len(),
    {
        self.entries.len()
    }
}

/// Two actions are equal, field by field.
fn same_action(a: &Action, b: &Action) -> (r: bool)
    ensures
        r == (*a == *b),
{
    if a.pinnacle_gain != b.pinnacle_gain || a.powerful_gain != b.powerful_gain || a.arity != b.arity {
        return false;
    }
    let mut i: usize = 0;
    while i < 8
        invariant
            i <= 8,
            forall|j: int| 0 <= j < i ==> a.pmf[j] == b.pmf[j],
        decreases 8 - i,
    {
        if a.pmf[i] != b.pmf[i] {
            return false;
        }
        i = i + 1;
    }
    assert(a.pmf =~= b.pmf);
    true
}

/// Two catalogs are equal, action by action.
fn same_actions(a: &Vec<Action>, b: &Vec<Action>) -> (r: bool)
    ensures
        r == (a@ == b@),
{
    if a.len() != b.len() {
        return false;
    }
    let mut i: usize = 0;
    while i < a.len()
        invariant
            a@.len() == b@.len(),
            i <= a@.len(),
            forall|j: int| 0 <= j < i ==> a@[j] == b@[j],
        decreases a@.len() - i,
    {
        if !same_action(&a[i], &b[i]) {
            return false;
        }
        i = i + 1;
    }
    assert(a@ =~= b@);
    true
}

/// A tabled entry is the transition the engine computes for its key, so reading the table
/// after the first computation returns what computing again would.
pub proof fn lemma_cached_result(s: Solver, se: StateEntry, b: Seq<u8>)
    requires
        s.wf(),
        memo_contents(s.state).contains_key(memo_key(b, se)),
    ensures
        memo_contents(s.state)[memo_key(b, se)] == (
            choice(s.config.rules(), se, b).next_action,
            choice(s.config.rules(), se, b).score,
        ),
{
    assert(key_slots(memo_key(b, se)) =~= entry_slots(se));
}

/// The memoized policy: a configuration and the table of transitions computed for it.
pub struct Solver {
    pub config: Configuration,
    pub state: MemoTable,
}

impl Solver {
    /// The configuration is accepted and every tabled entry is the transition owed.
    pub open spec fn wf(&self) -> bool {
        &&& self.config.wf()
        &&& memo_sound(self.config.rules(), memo_contents(self.state))
    }

    /// Checks the configuration and starts with an empty table.
    pub fn new(config: Configuration) -> (r: Result<Solver, ConfigError>)
        ensures
            match r {
                Ok(s) => s.wf() && s.config == config,
                Err(e) => !config.wf() && config.check_error() == Some(e),
            },
    {
        match config.check() {
            Ok(()) => {
                let state = memo_new();
                Ok(Solver { config, state })
            },
            Err(e) => Err(e),
        }
    }

    /// The tabled transition for `se` under `budget`, if one is tabled; read only.
    pub fn lookup(&self, budget: &Vec<u8>, se: &StateEntry) -> (r: Option<StateTransition>)
        requires
            self.wf(),
        ensures
            r is Some <==> memo_contents(self.state).contains_key(memo_key(budget@, *se)),
            r is Some ==> r->0 == choice(self.config.rules(), *se, budget@),
    {
        match memo_get(&self.state, budget, se) {
            Some((a, score)) => {
                proof {
                    let k = memo_key(budget@, *se);
                    assert(memo_contents(self.state).contains_key(k));
                    assert(key_slots(k) =~= entry_slots(*se));
                }
                Some(StateTransition { next_action: a, score })
            },
            None => None,
        }
    }

    /// Like `select_action`, and tables what it returns, so that later calls read it.
    pub fn solve(&mut self, se: &StateEntry, available_actions: &Vec<u8>) -> (r: Option<StateTransition>)
        requires
            old(self).wf(),
            old(self).config.state_ok(*se),
            available_actions@.len() == old(self).config.actions@.len(),
        ensures
            final(self).wf(),
            final(self).config == old(self).config,
            r == select_spec(old(self).config.rules(), *se, available_actions@),
            r is Some ==> memo_contents(final(self).state).contains_key(memo_key(available_actions@, *se)),
    {
        let r = self.select_action(se, available_actions);
        match r {
            Some(st) => {
                let ghost c = self.config.rules();
                memo_insert(&mut self.state, available_actions, se, (st.next_action, st.score));
                proof {
                    let m = memo_contents(self.state);
                    let k0 = memo_key(available_actions@, *se);
                    assert(key_slots(k0) =~= entry_slots(*se));
                    assert forall|k: MemoKey| #[trigger] m.contains_key(k) implies {
                        let b = best(c, key_slots(k), k.0, k.0.len() as int);
                        k.2.len() == 8 ==> m[k] == (b.0 as u8, b.1 as u64)
                    } by {
                        if k != k0 {
                            assert(memo_contents(old(self).state).contains_key(k));
                        }
                    }
                }
            },
            None => {},
        }
        r
    }

    /// Computes the transition of every tabled state of the configuration under `actions`.
    /// Reads the table only, so tables for the budgets of one class can be built side by side.
    pub fn build_states(&self, actions: &Vec<u8>) -> (r: StateTable)
        requires
            self.wf(),
            actions@.len() == self.config.actions@.len(),
        ensures
            r.spec_budget() == actions@,
            r.spec_entries() == self.config.all_entries@,
            r.spec_rules() == self.config.rules(),
            r.spec_transitions().len() == r.spec_entries().len(),
            forall|i: int| 0 <= i < r.spec_entries().len() ==> #[trigger] r.spec_transitions()[i] == choice(
                self.config.rules(),
                self.config.all_entries@[i],
                actions@,
            ),
    {
        let mut transitions: Vec<StateTransition> = Vec::new();
        let mut i: usize = 0;
        while i < self.config.all_entries.len()
            invariant
                self.wf(),
                actions@.len() == self.config.actions@.len(),
                i <= self.config.all_entries@.len(),
                transitions@.len() == i,
                forall|j: int| 0 <= j < i ==> #[trigger] transitions@[j] == choice(
                    self.config.rules(),
                    self.config.all_entries@[j],
                    actions@,
                ),
            decreases self.config.all_entries@.len() - i,
        {
            let se = self.config.all_entries[i];
            assert(self.config.state_ok(self.config.all_entries@[i as int]));
            let st = self.create_action(se, actions);
            transitions.push(st);
            i = i + 1;
        }
        StateTable {
            budget: actions.clone(),
            entries: self.config.all_entries.clone(),
            transitions,
            powerful_cap: self.config.powerful_cap,
            pinnacle_cap: self.config.pinnacle_cap,
            actions: self.config.actions.clone(),
        }
    }

    /// Tables every transition of `table` if it was computed under this solver's rules, and
    /// says whether it was.
    pub fn insert_states(&mut self, table: StateTable) -> (r: bool)
        requires
            old(self).wf(),
        ensures
            final(self).wf(),
            final(self).config == old(self).config,
            r == (table.spec_rules() == old(self).config.rules()),
            r ==> forall|i: int| 0 <= i < table.spec_entries().len() ==> memo_contents(final(self).state).contains_key(
                memo_key(table.spec_budget(), #[trigger] table.spec_entries()[i]),
            ),
            !r ==> memo_contents(final(self).state) == memo_contents(old(self).state),
    {
        proof {
            use_type_invariant(&table);
        }
        if table.powerful_cap != self.config.powerful_cap || table.pinnacle_cap != self.config.pinnacle_cap
            || !same_actions(&table.actions, &self.config.actions) {
            return false;
        }
        assert(table.spec_rules() == self.config.rules());
        let ghost c = self.config.rules();
        let mut i: usize = 0;
        while i < table.entries.len()
            invariant
                self.wf(),
                c == self.config.rules(),
                self.config == old(self).config,
                table.spec_rules() == c,
                table.entries@.len() == table.transitions@.len(),
                forall|j: int| 0 <= j < table.entries@.len() ==> #[trigger] table.transitions@[j] == choice(
                    c,
                    table.entries@[j],
                    table.budget@,
                ),
                i <= table.entries@.len(),
                forall|j: int| 0 <= j < i ==> memo_contents(self.state).contains_key(
                    memo_key(table.budget@, #[trigger] table.entries@[j]),
                ),
            decreases table.entries@.len() - i,
        {
            let se = table.entries[i];
            let st = table.transitions[i];
            let ghost before = memo_contents(self.state);
            memo_insert(&mut self.state, &table.budget, &se, (st.next_action, st.score));
            proof {
                let m = memo_contents(self.state);
                let k0 = memo_key(table.budget@, se);
                assert(key_slots(k0) =~= entry_slots(se));
                assert(st == choice(c, se, table.budget@));
                assert forall|k: MemoKey| #[trigger] m.contains_key(k) implies {
                    let b = best(c, key_slots(k), k.0, k.0.len() as int);
                    k.2.len() == 8 ==> m[k] == (b.0 as u8, b.1 as u64)
                } by {
                    if k != k0 {
                        assert(before.contains_key(k));
                    }
                }
                assert forall|j: int| 0 <= j < i + 1 implies m.contains_key(
                    memo_key(table.budget@, #[trigger] table.entries@[j]),
                ) by {
                    if j < i {
                        assert(before.contains_key(memo_key(table.budget@, table.entries@[j])));
                    }
                }
            }
            i = i + 1;
        }
        true
    }

    /// The best next action from `se` with budget `available_actions` and its expected
    /// score; nothing when the loadout is at the pinnacle cap or the budget is spent. A tabled
    /// entry is read; one not yet tabled is computed.
    pub fn select_action(&self, se: &StateEntry, available_actions: &Vec<u8>) -> (r: Option<StateTransition>)
        requires
            self.wf(),
            self.config.state_ok(*se),
            available_actions@.len() == self.config.actions@.len(),
        ensures
            r == select_spec(self.config.rules(), *se, available_actions@),
            terminal(self.config.rules(), se.mean as int, available_actions@) <==> r is None,
        decreases seq_total(available_actions@), 2int,
    {
        proof {
            lemma_total_nonneg(available_actions@);
        }
        if se.mean as i32 >= self.config.pinnacle_cap as i32 || vec_total(available_actions) == 0 {
            return None;
        }
        match memo_get(&self.state, available_actions, se) {
            Some((a, score)) => {
                proof {
                    let k = memo_key(available_actions@, *se);
                    assert(memo_contents(self.state).contains_key(k));
                    assert(key_slots(k) =~= entry_slots(*se));
                }
                Some(StateTransition { next_action: a, score })
            },
            None => Some(self.create_action(*se, available_actions)),
        }
    }

    /// Computes the transition for `se` under `available_actions`: of the actions with uses
    /// left, the last one reaching the highest expected score.
    pub fn create_action(&self, se: StateEntry, available_actions: &Vec<u8>) -> (r: StateTransition)
        requires
            self.wf(),
            self.config.state_ok(se),
            available_actions@.len() == self.config.actions@.len(),
        ensures
            r == choice(self.config.rules(), se, available_actions@),
            forall|a: int|
                0 <= a < available_actions@.len() && available_actions@[a] > 0 ==> #[trigger] action_value(
                    self.config.rules(),
                    entry_slots(se),
                    available_actions@,
                    a,
                ) <= r.score,
            (exists|a: int| 0 <= a < available_actions@.len() && #[trigger] available_actions@[a] > 0) ==> {
                &&& available_actions@[r.next_action as int] > 0
                &&& action_value(self.config.rules(), entry_slots(se), available_actions@, r.next_action as int)
                    == r.score
            },
        decreases seq_total(available_actions@), 1int,
    {
        let ghost c = self.config.rules();
        let ghost slots = entry_slots(se);
        let ghost b = available_actions@;
        proof {
            lemma_total_nonneg(b);
        }
        let mut max_st = StateTransition { next_action: 0, score: 0 };
        let mut i: usize = 0;
        while i < available_actions.len()
            invariant
                self.wf(),
                c == self.config.rules(),
                self.config.caps_valid(),
                self.config.actions_valid(),
                slots == entry_slots(se),
                b == available_actions@,
                self.config.state_ok(se),
                b.len() == c.actions.len(),
                b.len() <= MAX_ACTIONS,
                i <= b.len(),
                max_st.next_action as int == best(c, slots, b, i as int).0,
                max_st.score as int == best(c, slots, b, i as int).1,
            decreases b.len() - i,
        {
            proof {
                lemma_best_bounds(c, slots, b, i as int + 1);
            }
            if available_actions[i] > 0 {
                let score = self.on_action(&se, available_actions, i);
                if score >= max_st.score {
                    max_st = StateTransition { next_action: i as u8, score };
                }
            }
            i = i + 1;
        }
        proof {
            lemma_best_bounds(c, slots, b, b.len() as int);
            lemma_best_is_max(c, slots, b, b.len() as int);
        }
        max_st
    }

    /// The expected score, in score units, of using action `idx` now and choosing optimally
    /// after.
    fn on_action(&self, se: &StateEntry, available_actions: &Vec<u8>, idx: usize) -> (r: u64)
        requires
            self.wf(),
            self.config.state_ok(*se),
            available_actions@.len() == self.config.actions@.len(),
            idx < available_actions@.len(),
            available_actions@[idx as int] > 0,
        ensures
            r as int == action_value(self.config.rules(), entry_slots(*se), available_actions@, idx as int),
        decreases seq_total(available_actions@), 0int,
    {
        let ghost c = self.config.rules();
        let ghost slots = entry_slots(*se);
        let ghost b = available_actions@;
        let action = &self.config.actions[idx];
        proof {
            lemma_total_nonneg(b);
            lemma_pmf_prefix(action.pmf, 0);
        }
        let mut acc: u64 = 0;
        let mut s: usize = 0;
        while s < 8
            invariant
                self.wf(),
                c == self.config.rules(),
                self.config.caps_valid(),
                self.config.actions_valid(),
                slots == entry_slots(*se),
                b == available_actions@,
                self.config.state_ok(*se),
                b.len() == c.actions.len(),
                b.len() <= MAX_ACTIONS,
                idx < b.len(),
                b[idx as int] > 0,
                *action == c.actions[idx as int],
                s <= 8,
                acc as int == outcome_sum(c, slots, b, idx as int, s as int),
            decreases 8 - s,
        {
            proof {
                assert(engine_ok(c, slots, b));
                lemma_outcome_bounds(c, slots, b, idx as int, s as int + 1);
                lemma_pmf_prefix(action.pmf, s as int + 1);
                assert(pmf_total(action.pmf) == PMF_DENOMINATOR);
                lemma_total_nonneg(b);
                assert(pmf_prefix(action.pmf, s as int + 1) * score_bound(b) <= 840 * score_bound(b)) by (nonlinear_arith)
                    requires pmf_prefix(action.pmf, s as int + 1) <= 840, score_bound(b) >= 0;
                assert(score_bound(b) <= 1_000_000_000 * 255 * 32) by (nonlinear_arith)
                    requires score_bound(b) == 1_000_000 * 1000 * seq_total(b), seq_total(b) <= 255 * b.len(), b.len() <= 32;
            }
            let w = action.pmf[s];
            if w > 0 {
                let (nse, nb, reward) = self.config.update_state_entry(se, available_actions, s, idx);
                proof {
                    lemma_step_ok(c, slots, b, s as int, idx as int);
                    lemma_total_nonneg(nb@);
                    let ns = c.next_slots(slots, s as int, idx as int);
                    lemma_value_bounds(c, level_of(ns), ns, nb@);
                }
                let rest = match self.select_action(&nse, &nb) {
                    Some(st) => st.score,
                    None => 0,
                };
                proof {
                    let ns = c.next_slots(slots, s as int, idx as int);
                    assert(nb@ == spent(b, idx as int));
                    assert(ns == entry_slots(nse));
                    assert(rest as int == value(c, level_of(ns), ns, nb@));
                    let t = outcome_sum(c, slots, b, idx as int, s as int + 1);
                    assert(t == acc + w * (reward * SCORE_SCALE + rest));
                }
                acc = acc + w as u64 * (reward as u64 * SCORE_SCALE + rest);
            }
            s = s + 1;
        }
        acc / PMF_DENOMINATOR as u64
    }
}

} // verus!
