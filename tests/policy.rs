use power_solver::gear::{
    power_gain, Action, ConfigError, Configuration, Slot, StateEntry, StateTransition,
    PMF_DENOMINATOR,
};
use power_solver::levels::{current_level, full_flatten};
use power_solver::solver::{Solver, SCORE_SCALE};
use power_solver::utils::{compositions, ranked_actions, vec_total};

fn uniform() -> [u32; 8] {
    [105; 8]
}

fn only(slot: usize) -> [u32; 8] {
    let mut p = [0; 8];
    p[slot] = PMF_DENOMINATOR;
    p
}

fn action(powerful_gain: i16, pinnacle_gain: i16, arity: u8, pmf: [u32; 8]) -> Action {
    Action { pinnacle_gain, powerful_gain, arity, pmf }
}

fn zero_state() -> StateEntry {
    StateEntry { mean: 0, mean_slot_deviation: [0; 8] }
}

fn single_action_solver() -> Solver {
    let config = Configuration::make_config(0, 10, 12, vec![action(5, 2, 1, uniform())]).unwrap();
    Solver::new(config).unwrap()
}

#[test]
fn single_uniform_action_scores_five() {
    let solver = single_action_solver();
    let st = solver.select_action(&zero_state(), &vec![1]).unwrap();
    assert_eq!(st, StateTransition { next_action: 0, score: 5 * SCORE_SCALE });
}

#[test]
fn soft_cap_boundary_clamps() {
    let config = Configuration::make_config(0, 10, 12, vec![action(5, 2, 1, uniform())]).unwrap();
    let a = action(5, 2, 1, uniform());
    assert_eq!(power_gain(&config, &a, 9), 12);
    assert_eq!(power_gain(&config, &a, 4), 9);
    assert_eq!(power_gain(&config, &a, 10), 12);
    assert_eq!(power_gain(&config, &a, 11), 12);
}

#[test]
fn at_pinnacle_cap_nothing_changes() {
    let config = Configuration::make_config(0, 10, 12, vec![action(5, 2, 1, uniform())]).unwrap();
    let a = action(5, 2, 1, uniform());
    assert_eq!(power_gain(&config, &a, 12), 12);
    let se = StateEntry { mean: 11, mean_slot_deviation: [1, 0, 0, 0, 0, 0, 0, 0] };
    let (next, budget, reward) = config.update_state_entry(&se, &vec![1], 0, 0);
    assert_eq!(reward, 0);
    assert_eq!(budget, vec![0]);
    assert_eq!(next, se);
}

#[test]
fn two_single_slot_actions_both_apply() {
    let config = Configuration::make_config(
        0,
        10,
        12,
        vec![action(5, 2, 1, only(0)), action(5, 2, 1, only(1))],
    )
    .unwrap();
    let solver = Solver::new(config).unwrap();
    let st = solver.select_action(&zero_state(), &vec![1, 1]).unwrap();
    assert_eq!(st.score, 10 * SCORE_SCALE);
    assert_eq!(st.next_action, 1);
    let one_left = solver.select_action(&zero_state(), &vec![1, 0]).unwrap();
    assert_eq!(one_left, StateTransition { next_action: 0, score: 5 * SCORE_SCALE });
}

#[test]
fn transition_levels_and_spends_budget() {
    let config = Configuration::make_config(
        0,
        10,
        12,
        vec![action(5, 2, 1, only(0)), action(5, 2, 1, only(1))],
    )
    .unwrap();
    let se = StateEntry { mean: 0, mean_slot_deviation: [5, 0, 0, 0, 0, 0, 0, 0] };
    let (next, budget, reward) = config.update_state_entry(&se, &vec![0, 1], 1, 1);
    assert_eq!(reward, 5);
    assert_eq!(budget, vec![0, 0]);
    assert_eq!(next, StateEntry { mean: 2, mean_slot_deviation: [3, 3, 0, 0, 0, 0, 0, 0] });
}

#[test]
fn terminal_states_choose_nothing() {
    let solver = single_action_solver();
    assert_eq!(solver.select_action(&zero_state(), &vec![0]), None);
    let capped = StateEntry { mean: 12, mean_slot_deviation: [0; 8] };
    assert_eq!(solver.select_action(&capped, &vec![1]), None);
}

#[test]
fn repeated_selection_reads_the_table() {
    let mut solver = single_action_solver();
    let budget = vec![1];
    let se = StateEntry { mean: 3, mean_slot_deviation: [2, 0, 0, 0, 0, 0, 0, 1] };
    assert_eq!(solver.lookup(&budget, &se), None);
    let first = solver.solve(&se, &budget);
    let second = solver.solve(&se, &budget);
    assert_eq!(first, second);
    assert_eq!(solver.lookup(&budget, &se), first);
    assert_eq!(solver.select_action(&se, &budget), first);
}

#[test]
fn built_tables_are_committed() {
    let config = Configuration::make_config(9, 10, 12, vec![action(5, 2, 2, uniform())]).unwrap();
    let mut solver = Solver::new(config).unwrap();
    let n = solver.config.all_entries.len();
    for budget in [vec![1u8], vec![2u8]] {
        let table = solver.build_states(&budget);
        assert_eq!(table.len(), n);
        assert_eq!(table.budget(), &budget);
        assert!(solver.insert_states(table));
    }
    for se in solver.config.all_entries.clone() {
        let tabled = solver.lookup(&vec![2], &se).unwrap();
        let fresh = solver.create_action(se, &vec![2]);
        assert_eq!(tabled, fresh);
    }
}

#[test]
fn table_from_other_rules_is_refused() {
    let other = Solver::new(
        Configuration::make_config(9, 10, 12, vec![action(5, 1, 1, uniform())]).unwrap(),
    )
    .unwrap();
    let mut solver = Solver::new(
        Configuration::make_config(9, 10, 12, vec![action(5, 2, 1, uniform())]).unwrap(),
    )
    .unwrap();
    let table = other.build_states(&vec![1]);
    assert!(!solver.insert_states(table));
    assert_eq!(solver.lookup(&vec![1], &StateEntry { mean: 9, mean_slot_deviation: [0; 8] }), None);
}

#[test]
fn config_errors() {
    let ok = action(5, 2, 1, uniform());
    assert!(matches!(
        Configuration::make_config(0, 13, 12, vec![ok]),
        Err(ConfigError::InvalidCaps)
    ));
    assert!(matches!(
        Configuration::make_config(-1, 10, 12, vec![ok]),
        Err(ConfigError::InvalidCaps)
    ));
    assert!(matches!(
        Configuration::make_config(0, 10, 12, vec![ok; 33]),
        Err(ConfigError::TooManyActions)
    ));
    assert!(matches!(
        Configuration::make_config(0, 10, 12, vec![ok, action(5, 3, 1, uniform())]),
        Err(ConfigError::GainOutOfRange(1))
    ));
    let mut bad = uniform();
    bad[0] = 104;
    assert!(matches!(
        Configuration::make_config(0, 10, 12, vec![ok, action(5, 2, 1, bad)]),
        Err(ConfigError::ProbabilityNotOne(1))
    ));
    let mut config = Configuration::make_config(11, 10, 12, vec![ok]).unwrap();
    assert!(config.check().is_ok());
    config.all_entries.push(StateEntry { mean: 12, mean_slot_deviation: [1, 0, 0, 0, 0, 0, 0, 0] });
    let last = config.all_entries.len() - 1;
    assert!(matches!(config.check(), Err(ConfigError::InvalidEntry(i)) if i == last));
    assert!(matches!(Solver::new(config), Err(ConfigError::InvalidEntry(_))));
}

#[test]
fn tabled_entries_cover_the_window() {
    let config = Configuration::make_config(11, 10, 12, vec![action(5, 2, 1, uniform())]).unwrap();
    // mean 11: offsets of at most 1 in each slot and fewer than 8 in all
    assert_eq!(config.all_entries.len(), 255);
    for e in &config.all_entries {
        assert_eq!(e.mean, 11);
        assert!(e.mean_slot_deviation.iter().all(|d| *d == 0 || *d == 1));
    }
}

#[test]
fn power_gain_is_monotonic_and_capped() {
    let config = Configuration::make_config(0, 10, 12, vec![action(5, 2, 1, uniform())]).unwrap();
    let a = action(5, 2, 1, uniform());
    let mut last = power_gain(&config, &a, 0);
    for old in 1..=12 {
        let g = power_gain(&config, &a, old);
        assert!(g >= last);
        assert!(g <= 12);
        assert!(g >= old);
        last = g;
    }
}

#[test]
fn flatten_reaches_a_fixpoint() {
    let slots = [0, 0, 0, 0, 0, 0, 0, 40];
    let flat = full_flatten(slots);
    assert_eq!(flat, [33, 33, 33, 33, 33, 33, 33, 40]);
    assert_eq!(full_flatten(flat), flat);
    let level = current_level(flat);
    assert_eq!(level, 33);
    assert!(flat.iter().all(|s| *s >= level));
}

#[test]
fn level_is_floor_of_mean() {
    assert_eq!(current_level([1, 2, 3, 4, 5, 6, 7, 8]), 4);
    assert_eq!(current_level([0; 8]), 0);
    assert_eq!(current_level([7, 0, 0, 0, 0, 0, 0, 0]), 0);
}

#[test]
fn compositions_small_and_full() {
    assert_eq!(compositions(2, 2), vec![vec![0, 0], vec![1, 0], vec![0, 1]]);
    assert_eq!(compositions(5, 0), vec![Vec::<u8>::new()]);
    assert!(compositions(0, 3).is_empty());
    let all = compositions(8, 8);
    assert_eq!(all.len(), 6435);
    assert!(all.iter().all(|v| v.len() == 8 && v.iter().map(|x| *x as u32).sum::<u32>() < 8));
}

#[test]
fn ranked_classes_follow_the_sum() {
    let cap = vec![2u8, 1u8];
    let ranks = ranked_actions(&cap);
    assert_eq!(ranks.len(), 4);
    assert_eq!(ranks[0], vec![vec![0, 0]]);
    let mut one = ranks[1].clone();
    one.sort();
    assert_eq!(one, vec![vec![0, 1], vec![1, 0]]);
    let mut two = ranks[2].clone();
    two.sort();
    assert_eq!(two, vec![vec![1, 1], vec![2, 0]]);
    assert_eq!(ranks[3], vec![vec![2, 1]]);
    for k in 1..ranks.len() {
        for b in &ranks[k] {
            for a in 0..b.len() {
                if b[a] > 0 {
                    let mut s = b.clone();
                    s[a] -= 1;
                    assert!(ranks[k - 1].contains(&s));
                }
            }
        }
    }
    assert_eq!(ranked_actions(&vec![]), vec![vec![Vec::<u8>::new()]]);
}

#[test]
fn arities_give_the_full_budget() {
    let config = Configuration::make_config(
        0,
        10,
        12,
        vec![action(5, 2, 4, uniform()), action(5, 1, 1, only(3))],
    )
    .unwrap();
    assert_eq!(config.arities(), vec![4, 1]);
}

#[test]
fn budget_totals() {
    assert_eq!(vec_total(&vec![4, 4, 1, 1, 1, 1]), 12);
    assert_eq!(vec_total(&vec![]), 0);
}

#[test]
fn slot_indices() {
    assert_eq!(Slot::Kinetic.index(), 0);
    assert_eq!(Slot::ClassItem.index(), 7);
    assert_eq!(Slot::NumberOfSlots.index(), 8);
}
