use busy_beaver_rs::generator::{CallbackSink, MachineGenerator};
use busy_beaver_rs::machine::TransitionTable;
use busy_beaver_rs::model::{Direction, State, Transition};
use busy_beaver_rs::notation::{format_direction, format_state, normal_state_name};
use busy_beaver_rs::search::{BusyBeaverSearch, ChampionGroup, SearchConfig, SearchResult};
use std::time::Duration;

#[test]
fn bb2_search_tracks_sigma_and_step_champions_separately() {
    let config = SearchConfig::bb2().with_progress_interval(0);
    let result = BusyBeaverSearch::new(config).run();

    assert_eq!(result.total_machines, 20_736);
    assert_eq!(result.sigma_champions.best_ones, 4);
    assert_eq!(result.sigma_champions.best_steps, 6);
    assert!(!result.sigma_champions.is_empty());

    assert_eq!(result.step_champions.best_steps, 6);
    assert_eq!(result.step_champions.best_ones, 4);
    assert!(!result.step_champions.is_empty());
}

#[test]
fn bb2_search_counts_every_machine_once() {
    let config = SearchConfig::bb2().with_progress_interval(0);
    let result = BusyBeaverSearch::new(config).run();
    assert_eq!(
        result.halted_machines + result.step_limited_machines + result.missing_transition_machines,
        result.total_machines
    );
    assert_eq!(result.missing_transition_machines, 0);
    assert_eq!(result.halted_machines, 9784);
    assert_eq!(result.step_limited_machines, 10952);
    assert_eq!(result.sigma_champions.len(), 4);
    assert_eq!(result.step_champions.len(), 40);
}

#[test]
fn bb1_search_over_two_symbols() {
    // One state, two symbols: 2 slots of 2 * 2 * 2 = 8 candidates each.
    let config = SearchConfig::new(1, 2, 100).with_progress_interval(0);
    let result = BusyBeaverSearch::new(config).run();
    assert_eq!(result.total_machines, 64);
    assert_eq!(result.halted_machines, 32);
    assert_eq!(result.step_limited_machines, 32);
    assert_eq!(result.missing_transition_machines, 0);
    assert_eq!(result.sigma_champions.best_ones, 1);
    assert_eq!(result.sigma_champions.best_steps, 1);
    assert_eq!(result.sigma_champions.len(), 16);
    assert_eq!(result.step_champions.best_steps, 1);
    assert_eq!(result.step_champions.best_ones, 1);
    assert_eq!(result.step_champions.len(), 32);
}

#[test]
fn one_state_one_symbol_search() {
    // 1 slot, 1 * 2 * 2 = 4 candidates: write 0, move L/R, go to A or halt.
    let config = SearchConfig::new(1, 1, 10).with_progress_interval(0);
    let result = BusyBeaverSearch::new(config).run();
    assert_eq!(result.total_machines, 4);
    assert_eq!(result.halted_machines, 2);
    assert_eq!(result.step_limited_machines, 2);
    assert_eq!(result.sigma_champions.len(), 2);
    assert_eq!(result.sigma_champions.best_ones, 0);
    assert_eq!(result.sigma_champions.best_steps, 1);
    assert_eq!(result.step_champions.len(), 2);
    assert_eq!(result.step_champions.best_steps, 1);
}

#[test]
fn generator_enumerates_every_table_in_order() {
    let generator = MachineGenerator::new(2, 2);
    let mut count = 0usize;
    let mut first: Option<Vec<Transition>> = None;
    let mut sink = CallbackSink::new(|table: TransitionTable| {
        if count == 0 {
            first = Some(table.iter().into_iter().map(|(_, _, t)| t).collect());
        }
        assert_eq!(table.len(), 4);
        count += 1;
    });
    generator.for_each(&mut sink);
    drop(sink);
    assert_eq!(count, 12 * 12 * 12 * 12);
    let first = first.unwrap();
    let expected = Transition { write: 0, direction: Direction::Left, next_state: State::Normal(0) };
    assert_eq!(first, vec![expected; 4]);
}

#[test]
fn generator_tables_are_distinct_and_in_lexicographic_order() {
    let generator = MachineGenerator::new(1, 2);
    let mut tables: Vec<Vec<Transition>> = Vec::new();
    let mut sink = CallbackSink::new(|table: TransitionTable| {
        tables.push(table.iter().into_iter().map(|(_, _, t)| t).collect());
    });
    generator.for_each(&mut sink);
    drop(sink);
    assert_eq!(tables.len(), 8 * 8);
    let mut distinct = tables.clone();
    distinct.sort_by_key(|t| format!("{:?}", t));
    distinct.dedup();
    assert_eq!(distinct.len(), tables.len());
    assert_eq!(
        tables[1][1],
        Transition { write: 0, direction: Direction::Left, next_state: State::Halt }
    );
    assert_eq!(
        tables[7][1],
        Transition { write: 1, direction: Direction::Right, next_state: State::Halt }
    );
}

#[test]
fn record_counts_and_reports_progress() {
    let config = SearchConfig::new(2, 2, 100).with_progress_interval(2);
    let search = BusyBeaverSearch::new(config);
    let mut result = SearchResult::new();
    let champion = TransitionTable::new(
        2,
        vec![
            Transition { write: 1, direction: Direction::Right, next_state: State::Normal(1) },
            Transition { write: 1, direction: Direction::Left, next_state: State::Normal(1) },
            Transition { write: 1, direction: Direction::Left, next_state: State::Normal(0) },
            Transition { write: 1, direction: Direction::Right, next_state: State::Halt },
        ],
    );
    let looping = TransitionTable::new(
        2,
        vec![Transition { write: 0, direction: Direction::Right, next_state: State::Normal(0) }; 4],
    );
    assert!(!search.record(&mut result, &champion));
    assert!(search.record(&mut result, &looping));
    assert_eq!(result.total_machines, 2);
    assert_eq!(result.halted_machines, 1);
    assert_eq!(result.step_limited_machines, 1);
    assert_eq!(result.sigma_champions.best_ones, 4);
    assert_eq!(result.step_champions.best_steps, 6);
    assert_eq!(result.sigma_champions.len(), 1);
    assert_eq!(result.elapsed, Duration::ZERO);
}

#[test]
fn new_values_start_empty() {
    let group = ChampionGroup::new();
    assert!(group.is_empty());
    assert_eq!(group.len(), 0);
    assert_eq!(group.best_ones, 0);
    assert_eq!(group.best_steps, 0);
    let result = SearchResult::new();
    assert_eq!(result.total_machines, 0);
    assert_eq!(result.elapsed, Duration::ZERO);
    let config = SearchConfig::bb3();
    assert_eq!((config.state_count, config.symbol_count, config.max_steps), (3, 2, 100));
    assert_eq!(config.progress_interval, 10_000);
}

#[test]
fn names_of_states_and_directions() {
    assert_eq!(normal_state_name(0), "A");
    assert_eq!(normal_state_name(2), "C");
    assert_eq!(format_state(State::Normal(1)), "B");
    assert_eq!(format_state(State::Halt), "H");
    assert_eq!(format_direction(Direction::Left), "L");
    assert_eq!(format_direction(Direction::Right), "R");
}

#[test]
fn cloned_result_keeps_counts_and_elapsed_time() {
    let config = SearchConfig::new(1, 1, 10).with_progress_interval(0);
    let result = BusyBeaverSearch::new(config).run();
    let copy = result.clone();
    assert_eq!(copy.total_machines, result.total_machines);
    assert_eq!(copy.elapsed, result.elapsed);
    assert_eq!(copy.sigma_champions.len(), result.sigma_champions.len());
}

#[test]
fn one_state_one_symbol_generator_calls_back_four_times_in_order() {
    let generator = MachineGenerator::new(1, 1);
    let mut calls: Vec<Vec<Transition>> = Vec::new();
    let mut sink = CallbackSink::new(|table: TransitionTable| {
        assert_eq!(table.len(), 1);
        calls.push(table.iter().into_iter().map(|(_, _, t)| t).collect());
    });
    generator.for_each(&mut sink);
    drop(sink);
    let tr = |write: u8, direction: Direction, next_state: State| Transition { write, direction, next_state };
    assert_eq!(
        calls,
        vec![
            vec![tr(0, Direction::Left, State::Normal(0))],
            vec![tr(0, Direction::Left, State::Halt)],
            vec![tr(0, Direction::Right, State::Normal(0))],
            vec![tr(0, Direction::Right, State::Halt)],
        ]
    );
}

#[test]
fn generator_without_slots_lists_one_empty_table() {
    let generator = MachineGenerator::new(0, 2);
    let mut lengths: Vec<usize> = Vec::new();
    let mut sink = CallbackSink::new(|table: TransitionTable| lengths.push(table.len()));
    generator.for_each(&mut sink);
    drop(sink);
    assert_eq!(lengths, vec![0]);
    let result = BusyBeaverSearch::new(SearchConfig::new(0, 2, u64::MAX).with_progress_interval(0)).run();
    assert_eq!(result.total_machines, 1);
    assert_eq!(result.missing_transition_machines, 1);
}
