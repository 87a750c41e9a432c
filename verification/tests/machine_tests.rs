use busy_beaver_rs::machine::{Machine, RunStatus, TransitionTable};
use busy_beaver_rs::model::{Direction, State, Transition};

fn rule(write: u8, direction: Direction, next_state: State) -> Transition {
    Transition { write, direction, next_state }
}

/// The BB(2) champion: A0 -> 1RB, A1 -> 1LB, B0 -> 1LA, B1 -> 1RH.
fn bb2_champion() -> TransitionTable {
    TransitionTable::new(
        2,
        vec![
            rule(1, Direction::Right, State::Normal(1)),
            rule(1, Direction::Left, State::Normal(1)),
            rule(1, Direction::Left, State::Normal(0)),
            rule(1, Direction::Right, State::Halt),
        ],
    )
}

#[test]
fn transition_table_indexes_by_state_and_symbol() {
    let transitions = vec![
        Transition {
            write: 0,
            direction: Direction::Left,
            next_state: State::Normal(0),
        },
        Transition {
            write: 1,
            direction: Direction::Right,
            next_state: State::Normal(1),
        },
        Transition {
            write: 1,
            direction: Direction::Left,
            next_state: State::Halt,
        },
        Transition {
            write: 0,
            direction: Direction::Right,
            next_state: State::Normal(0),
        },
    ];
    let table = TransitionTable::new(2, transitions);

    assert_eq!(table.get(State::Normal(0), 0).unwrap().write, 0);
    assert_eq!(table.get(State::Normal(0), 1).unwrap().write, 1);
    assert_eq!(
        table.get(State::Normal(1), 0).unwrap().next_state,
        State::Halt
    );
    assert_eq!(table.get(State::Normal(1), 1).unwrap().write, 0);
    assert_eq!(table.get(State::Halt, 0), None);
}

#[test]
fn transition_table_slot_index_is_state_times_symbols_plus_symbol() {
    // Six slots of a 3-state table: A0, A1, B0, B1, C0, C1 at 0..6.
    let transitions: Vec<Transition> = (0..6u8)
        .map(|i| rule(i, Direction::Left, State::Halt))
        .collect();
    let table = TransitionTable::new(2, transitions);
    assert_eq!(table.get(State::Normal(0), 0).unwrap().write, 0);
    assert_eq!(table.get(State::Normal(0), 1).unwrap().write, 1);
    assert_eq!(table.get(State::Normal(1), 0).unwrap().write, 2);
    assert_eq!(table.get(State::Normal(1), 1).unwrap().write, 3);
    assert_eq!(table.get(State::Normal(2), 0).unwrap().write, 4);
    assert_eq!(table.get(State::Normal(2), 1).unwrap().write, 5);
    assert_eq!(table.get(State::Normal(3), 0), None);
    assert_eq!(table.len(), 6);
    assert!(!table.is_empty());
    assert!(TransitionTable::new(2, Vec::new()).is_empty());
}

#[test]
fn transition_table_iter_lists_slots_with_their_keys() {
    let table = bb2_champion();
    let entries = table.iter();
    assert_eq!(entries.len(), 4);
    let keys: Vec<(State, u8)> = entries.iter().map(|(s, y, _)| (*s, *y)).collect();
    assert_eq!(
        keys,
        vec![
            (State::Normal(0), 0),
            (State::Normal(0), 1),
            (State::Normal(1), 0),
            (State::Normal(1), 1)
        ]
    );
    for (state, symbol, transition) in entries {
        assert_eq!(table.get(state, symbol), Some(transition));
    }
}

#[test]
fn machine_runs_bb2_champion_to_halt() {
    let mut machine = Machine::new(bb2_champion());
    assert_eq!(machine.run(100), RunStatus::Halted);
    assert_eq!(machine.steps(), 6);
    assert_eq!(machine.ones(), 4);
    assert_eq!(machine.state(), State::Halt);
    let snapshot = machine.snapshot();
    assert_eq!(snapshot.steps, 6);
    assert_eq!(snapshot.ones, 4);
    assert_eq!(snapshot.state, State::Halt);
    assert_eq!(snapshot.head, 0);
    assert_eq!(machine.table().len(), 4);
}

#[test]
fn machine_steps_one_transition_at_a_time() {
    let mut machine = Machine::new(bb2_champion());
    assert_eq!(machine.step(), RunStatus::Running);
    let snapshot = machine.snapshot();
    assert_eq!(snapshot.head, 1);
    assert_eq!(snapshot.steps, 1);
    assert_eq!(snapshot.ones, 1);
    assert_eq!(snapshot.state, State::Normal(1));
    assert_eq!(machine.step(), RunStatus::Running);
    assert_eq!(machine.snapshot().head, 0);
    assert_eq!(machine.state(), State::Normal(0));
}

#[test]
fn machine_reports_step_limit_and_resumes() {
    let mut machine = Machine::new(bb2_champion());
    assert_eq!(machine.run(3), RunStatus::StepLimitReached);
    assert_eq!(machine.steps(), 3);
    assert_eq!(machine.run(100), RunStatus::Halted);
    assert_eq!(machine.steps(), 6);
    assert_eq!(machine.ones(), 4);
}

#[test]
fn machine_reports_missing_transition() {
    let table = TransitionTable::new(2, vec![rule(1, Direction::Right, State::Normal(1))]);
    let mut machine = Machine::new(table);
    assert_eq!(machine.run(100), RunStatus::MissingTransition);
    assert_eq!(machine.steps(), 1);
    assert_eq!(machine.state(), State::Normal(1));
    assert_eq!(machine.ones(), 1);
}

#[test]
fn halted_machine_stays_halted() {
    let table = TransitionTable::new(1, vec![rule(1, Direction::Left, State::Halt)]);
    let mut machine = Machine::new(table);
    assert_eq!(machine.step(), RunStatus::Halted);
    assert_eq!(machine.step(), RunStatus::Halted);
    assert_eq!(machine.steps(), 1);
    assert_eq!(machine.snapshot().head, -1);
    assert_eq!(machine.ones(), 1);
}

#[test]
fn machine_that_never_halts_hits_the_limit() {
    let table = TransitionTable::new(1, vec![rule(0, Direction::Right, State::Normal(0))]);
    let mut machine = Machine::new(table);
    assert_eq!(machine.run(50), RunStatus::StepLimitReached);
    assert_eq!(machine.steps(), 50);
    assert_eq!(machine.snapshot().head, 50);
    assert_eq!(machine.ones(), 0);
}
