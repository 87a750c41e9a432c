//! A single Turing machine. A `Machine` neither searches nor generates
//! tables: given one transition table, it runs step by step from a blank
//! tape.

use crate::model::{Direction, State, Symbol, Transition};
use crate::tape::{cell_index, Tape, TapeView};
use vstd::prelude::*;

verus! {

/// What a transition table holds: the symbol count and the rule of each slot,
/// where slot `state_id * symbol_count + symbol` holds the rule for that
/// state and symbol.
pub struct TableView {
    pub symbol_count: u8,
    pub transitions: Seq<Transition>,
}

impl TableView {
    /// The slot that holds the rule for state `state_id` reading `symbol`.
    pub open spec fn slot(self, state_id: u8, symbol: Symbol) -> int {
        state_id * self.symbol_count + symbol
    }

    /// The rule for `state` reading `symbol`: none for the halt state or for a
    /// slot the table does not have.
    pub open spec fn lookup(self, state: State, symbol: Symbol) -> Option<Transition> {
        match state {
            State::Normal(id) => {
                let index = self.slot(id, symbol);
                if index < self.transitions.len() {
                    Some(self.transitions[index])
                } else {
                    None
                }
            },
            State::Halt => None,
        }
    }

    /// The (state, symbol) pair that slot `index` stands for; the state number
    /// is kept modulo 256, as a `u8` holds it.
    pub open spec fn slot_key(self, index: int) -> (State, Symbol) {
        (
            State::Normal(((index / self.symbol_count as int) % 256) as u8),
            (index % self.symbol_count as int) as u8,
        )
    }
}

/// A transition table stored as an array of rules, one per
/// (state, symbol) slot: `index = state_id * symbol_count + symbol`.
#[derive(Clone, Debug)]
pub struct TransitionTable {
    symbol_count: u8,
    transitions: Vec<Transition>,
}

impl View for TransitionTable {
    type V = TableView;

    closed spec fn view(&self) -> TableView {
        TableView { symbol_count: self.symbol_count, transitions: self.transitions@ }
    }
}

impl TransitionTable {
    /// A table over `symbol_count` symbols with the given rules, slot by slot.
    pub fn new(symbol_count: u8, transitions: Vec<Transition>) -> (table: Self)
        ensures
            table@ == (TableView { symbol_count, transitions: transitions@ }),
    {
        Self { symbol_count, transitions }
    }

    /// The rule for `state` reading `symbol`, if the table has one.
    pub fn get(&self, state: State, symbol: Symbol) -> (found: Option<Transition>)
        ensures
            found == self@.lookup(state, symbol),
    {
        let state_id = match state {
            State::Normal(id) => id,
            State::Halt => return None,
        };
        let count = self.symbol_count;
        assert(state_id * count <= 255 * 255) by (nonlinear_arith)
            requires
                state_id <= 255,
                count <= 255,
        ;
        let index = state_id as usize * count as usize + symbol as usize;
        if index < self.transitions.len() {
            Some(self.transitions[index])
        } else {
            None
        }
    }

    /// Every slot in order, with the (state, symbol) pair it stands for.
    pub fn iter(&self) -> (entries: Vec<(State, Symbol, Transition)>)
        requires
            self@.symbol_count > 0 || self@.transitions.len() == 0,
        ensures
            entries@.len() == self@.transitions.len(),
            forall|i: int|
                0 <= i < entries@.len() ==> {
                    let (state, symbol) = #[trigger] self@.slot_key(i);
                    entries@[i] == (state, symbol, self@.transitions[i])
                },
    {
        let mut entries: Vec<(State, Symbol, Transition)> = Vec::new();
        let mut index: usize = 0;
        while index < self.transitions.len()
            invariant
                index <= self.transitions@.len(),
                self.symbol_count > 0 || self.transitions@.len() == 0,
                entries@.len() == index,
                forall|i: int|
                    0 <= i < index ==> {
                        let (state, symbol) = #[trigger] self@.slot_key(i);
                        entries@[i] == (state, symbol, self@.transitions[i])
                    },
            decreases self.transitions@.len() - index,
        {
            let symbol_count = self.symbol_count as usize;
            let state_id = index / symbol_count;
            let symbol = index % symbol_count;
            let entry = (State::Normal((state_id % 256) as u8), symbol as Symbol, self.transitions[index]);
            entries.push(entry);
            proof {
                let (s, y) = self@.slot_key(index as int);
                assert(entries@[index as int] == (s, y, self@.transitions[index as int]));
            }
            index = index + 1;
        }
        entries
    }

    /// The number of rule slots.
    pub fn len(&self) -> (count: usize)
        ensures
            count == self@.transitions.len(),
    {
        self.transitions.len()
    }

    /// Whether the table has no rule slot.
    pub fn is_empty(&self) -> (empty: bool)
        ensures
            empty == (self@.transitions.len() == 0),
    {
        self.transitions.len() == 0
    }

    /// A second table with the same rules.
    pub(crate) fn duplicate(&self) -> (copy: Self)
        ensures
            copy@ == self@,
    {
        let transitions = self.transitions.clone();
        assert(transitions@ =~= self.transitions@);
        Self { symbol_count: self.symbol_count, transitions }
    }
}

/// Every slot listed by `iter` is found again by `get` under the pair it is
/// listed with, as long as its state number fits in a `u8`.
pub proof fn law_entries_match_lookup(table: TableView, index: int)
    requires
        table.symbol_count > 0,
        0 <= index < table.transitions.len(),
        index / table.symbol_count as int <= 255,
    ensures
        ({
            let (state, symbol) = table.slot_key(index);
            table.lookup(state, symbol) == Some(table.transitions[index])
        }),
{
    let n = table.symbol_count as int;
    vstd::arithmetic::div_mod::lemma_fundamental_div_mod(index, n);
    let q = index / n;
    let r = index % n;
    assert(0 <= q && 0 <= r < n);
    assert(q * n == n * q) by (nonlinear_arith);
    let (state, symbol) = table.slot_key(index);
    assert(state == State::Normal(q as u8));
    assert(symbol as int == r);
    assert(table.slot(q as u8, symbol) == index);
}

/// The state of a single machine run.
#[derive(Clone, Debug, Copy, PartialEq, Eq, Structural)]
pub enum RunStatus {
    /// The machine is still running.
    Running,
    /// The machine reached the halt state.
    Halted,
    /// The machine met a (state, symbol) pair its table has no rule for.
    MissingTransition,
    /// The machine ran out of its step budget without halting.
    StepLimitReached,
}

/// A summary of a machine at one moment.
#[derive(Clone, Debug)]
pub struct MachineSnapshot {
    pub state: State,
    pub head: i64,
    pub steps: u64,
    pub ones: usize,
}

/// What a machine is: its table, its tape, where its head is, its state and
/// how many steps it has taken.
pub struct MachineView {
    pub table: TableView,
    pub tape: TapeView,
    pub head: int,
    pub state: State,
    pub steps: nat,
}

/// A machine fresh from `table`: state A, head at 0, blank tape, no steps.
pub open spec fn start(table: TableView) -> MachineView {
    MachineView { table, tape: TapeView::blank(), head: 0, state: State::Normal(0), steps: 0 }
}

/// One step of `m`: the machine after it and the status it reports.
pub open spec fn step_of(m: MachineView) -> (MachineView, RunStatus) {
    if m.state == State::Halt {
        (m, RunStatus::Halted)
    } else {
        match m.table.lookup(m.state, m.tape.read(m.head)) {
            None => (m, RunStatus::MissingTransition),
            Some(t) => {
                let next = MachineView {
                    table: m.table,
                    tape: m.tape.write(m.head, t.write),
                    head: match t.direction {
                        Direction::Left => m.head - 1,
                        Direction::Right => m.head + 1,
                    },
                    state: t.next_state,
                    steps: m.steps + 1,
                };
                (next, if t.next_state == State::Halt {
                    RunStatus::Halted
                } else {
                    RunStatus::Running
                })
            },
        }
    }
}

/// `m` run until it stops running or has taken `max_steps` steps in all.
pub open spec fn run_of(m: MachineView, max_steps: nat) -> (MachineView, RunStatus)
    decreases max_steps - m.steps,
{
    if m.steps >= max_steps {
        (m, RunStatus::StepLimitReached)
    } else {
        let (next, status) = step_of(m);
        if status == RunStatus::Running {
            run_of(next, max_steps)
        } else {
            (next, status)
        }
    }
}

/// A step budget under which every run fits this platform (see
/// `fits_platform`): within `i64`, and small enough that a tape of twice as
/// many cells is countable in `usize`. It is a sufficient condition, not a
/// necessary one.
pub open spec fn step_limit_fits(steps: int) -> bool {
    steps <= i64::MAX && 2 * steps <= usize::MAX
}

/// Whether a machine fits this platform: its step count (and so its head)
/// stays within `i64`, every cell index fits `usize`, and its allocated cells
/// are countable in `usize`.
pub open spec fn fits_platform(m: MachineView) -> bool {
    &&& m.steps <= i64::MAX
    &&& m.steps <= usize::MAX
    &&& m.tape.allocated() <= usize::MAX
}

/// The shape every machine started from a blank tape keeps: its head is at
/// most `steps` cells from the origin and each side of its tape has at most
/// `steps` cells.
pub open spec fn shaped(m: MachineView) -> bool {
    &&& -(m.steps as int) <= m.head <= m.steps
    &&& m.tape.positive.len() <= m.steps
    &&& m.tape.negative.len() <= m.steps
}

/// One step keeps the shape and never frees a cell.
proof fn lemma_step_shape(m: MachineView)
    requires
        shaped(m),
    ensures
        shaped(step_of(m).0),
        m.tape.allocated() <= step_of(m).0.tape.allocated(),
{
    if m.state != State::Halt {
        if let Some(t) = m.table.lookup(m.state, m.tape.read(m.head)) {
            crate::tape::law_write_allocation(m.tape, m.head, t.write);
        }
    }
}

/// A run keeps the shape and never frees a cell.
proof fn lemma_run_shape(m: MachineView, max_steps: nat)
    requires
        shaped(m),
    ensures
        shaped(run_of(m, max_steps).0),
        m.tape.allocated() <= run_of(m, max_steps).0.tape.allocated(),
    decreases max_steps - m.steps,
{
    if m.steps < max_steps {
        let (next, status) = step_of(m);
        lemma_step_shape(m);
        if status == RunStatus::Running {
            lemma_run_shape(next, max_steps);
        }
    }
}

/// What a run ends in: it never reports `Running`; a halted run is in the
/// halt state; a missed rule is a (state, symbol) pair the table lacks; a run
/// stopped by the limit has used up its budget. A run never changes the table,
/// never takes a step back, never goes past the budget, and the head moves at
/// most one cell per step.
pub proof fn law_run_outcome(m: MachineView, max_steps: nat)
    ensures
        ({
            let (last, status) = run_of(m, max_steps);
            &&& status != RunStatus::Running
            &&& status == RunStatus::Halted ==> last.state == State::Halt
            &&& status == RunStatus::MissingTransition ==> {
                &&& last.state != State::Halt
                &&& last.table.lookup(last.state, last.tape.read(last.head)) is None
            }
            &&& status == RunStatus::StepLimitReached ==> last.steps >= max_steps && (last == m || last.steps == max_steps)
            &&& last.table == m.table
            &&& m.steps <= last.steps
            &&& m.steps <= max_steps ==> last.steps <= max_steps
            &&& -(last.steps - m.steps) <= last.head - m.head <= last.steps - m.steps
        }),
    decreases max_steps - m.steps,
{
    if m.steps < max_steps {
        let (next, status) = step_of(m);
        if status == RunStatus::Running {
            law_run_outcome(next, max_steps);
        }
    }
}

/// The rule for a normal state and a symbol sits in slot
/// `state_id * symbol_count + symbol` when the table has that slot; the halt
/// state and slots past the end have no rule.
pub proof fn law_lookup_slot(table: TableView, id: u8, symbol: Symbol)
    ensures
        table.lookup(State::Halt, symbol) is None,
        id * table.symbol_count + symbol < table.transitions.len() ==> table.lookup(State::Normal(id), symbol)
            == Some(table.transitions[id * table.symbol_count + symbol]),
        id * table.symbol_count + symbol >= table.transitions.len() ==> table.lookup(State::Normal(id), symbol) is None,
{
}

/// Different (state, symbol) pairs with symbols below the symbol count use
/// different slots.
pub proof fn law_slots_distinct(table: TableView, id1: u8, symbol1: Symbol, id2: u8, symbol2: Symbol)
    requires
        symbol1 < table.symbol_count,
        symbol2 < table.symbol_count,
        id1 != id2 || symbol1 != symbol2,
    ensures
        table.slot(id1, symbol1) != table.slot(id2, symbol2),
{
    let n = table.symbol_count as int;
    if id1 == id2 {
    } else if id1 < id2 {
        assert(id1 * n + n <= id2 * n) by (nonlinear_arith)
            requires
                id1 < id2,
                n >= 0,
        ;
    } else {
        assert(id2 * n + n <= id1 * n) by (nonlinear_arith)
            requires
                id2 < id1,
                n >= 0,
        ;
    }
}

/// A new machine is in state A with its head at the origin, has taken no
/// step, runs the given table, and its tape reads 0 everywhere.
pub proof fn law_start(table: TableView, position: int)
    ensures
        start(table).state == State::Normal(0),
        start(table).head == 0,
        start(table).steps == 0,
        start(table).table == table,
        start(table).tape.read(position) == 0,
        start(table).tape.ones() == 0,
        start(table).tape.allocated() == 0,
{
}

/// A step applies the rule for the state and the symbol under the head: it
/// writes the rule's symbol in that cell and nowhere else, moves the head one
/// cell the rule's way, enters the rule's next state, and counts one step; it
/// reports `Halted` exactly when the next state is the halt state.
pub proof fn law_step_applies_rule(m: MachineView, t: Transition, other: int)
    requires
        m.state != State::Halt,
        m.table.lookup(m.state, m.tape.read(m.head)) == Some(t),
    ensures
        ({
            let (next, status) = step_of(m);
            &&& next.state == t.next_state
            &&& next.tape.read(m.head) == t.write
            &&& other != m.head ==> next.tape.read(other) == m.tape.read(other)
            &&& next.head == m.head + (if t.direction == Direction::Left { -1int } else { 1int })
            &&& next.steps == m.steps + 1
            &&& next.table == m.table
            &&& status == (if t.next_state == State::Halt { RunStatus::Halted } else { RunStatus::Running })
        }),
{
    crate::tape::law_read_after_write(m.tape, m.head, t.write, other);
}

/// A halted machine does not move and reports `Halted`; a machine whose
/// table has no rule for its state and the symbol under the head does not
/// move and reports `MissingTransition`.
pub proof fn law_step_stops(m: MachineView)
    ensures
        m.state == State::Halt ==> step_of(m) == (m, RunStatus::Halted),
        m.state != State::Halt && m.table.lookup(m.state, m.tape.read(m.head)) is None ==> step_of(m) == (
            m,
            RunStatus::MissingTransition,
        ),
{
}

/// A run that starts within its budget reports `Halted` exactly when it
/// ends in the halt state; it stops at the limit only after taking exactly
/// its budget of steps, misses a rule only before its budget is used up, and
/// never takes more steps than its budget.
pub proof fn law_run_halts_iff_halt_state(m: MachineView, max_steps: nat)
    requires
        m.steps < max_steps,
    ensures
        ({
            let (last, status) = run_of(m, max_steps);
            &&& (last.state == State::Halt) == (status == RunStatus::Halted)
            &&& status == RunStatus::StepLimitReached ==> last.steps == max_steps
            &&& status == RunStatus::MissingTransition ==> last.steps < max_steps
            &&& last.steps <= max_steps
        }),
    decreases max_steps - m.steps,
{
    let (next, status) = step_of(m);
    if status == RunStatus::Running {
        if next.steps < max_steps {
            law_run_halts_iff_halt_state(next, max_steps);
        }
    }
}

/// Running to a budget, then on to a larger budget, is the same as running
/// to the larger budget at once.
pub proof fn law_run_resumes(m: MachineView, first: nat, second: nat)
    requires
        first <= second,
        run_of(m, first).1 == RunStatus::StepLimitReached,
    ensures
        run_of(run_of(m, first).0, second) == run_of(m, second),
    decreases first - m.steps,
{
    if m.steps < first {
        let (next, status) = step_of(m);
        law_run_resumes(next, first, second);
    }
}

/// A run that has not used up its budget takes at least the next step, and
/// the machine after that step fits wherever the machine at the end fits.
proof fn lemma_run_covers_next_step(m: MachineView, max_steps: nat)
    requires
        m.steps < max_steps,
        shaped(m),
        fits_platform(run_of(m, max_steps).0),
    ensures
        step_of(m).0.steps <= run_of(m, max_steps).0.steps,
        fits_platform(step_of(m).0),
{
    let (next, status) = step_of(m);
    lemma_step_shape(m);
    if status == RunStatus::Running {
        law_run_outcome(next, max_steps);
        lemma_run_shape(next, max_steps);
    }
}

/// Under a budget that fits (`step_limit_fits`), every run from a machine
/// that fits and keeps the shape ends in a machine that fits.
proof fn lemma_budget_fits(m: MachineView, max_steps: nat)
    requires
        step_limit_fits(max_steps as int),
        shaped(m),
        fits_platform(m),
    ensures
        fits_platform(run_of(m, max_steps).0),
{
    law_run_outcome(m, max_steps);
    lemma_run_shape(m, max_steps);
}

/// The bounds a machine keeps: it fits the platform and keeps its shape.
pub open spec fn within_bounds(m: MachineView) -> bool {
    fits_platform(m) && shaped(m)
}

/// A Turing machine simulator.
#[derive(Clone, Debug)]
pub struct Machine {
    table: TransitionTable,
    tape: Tape,
    head: i64,
    state: State,
    steps: u64,
}

impl View for Machine {
    type V = MachineView;

    closed spec fn view(&self) -> MachineView {
        MachineView {
            table: self.table@,
            tape: self.tape@,
            head: self.head as int,
            state: self.state,
            steps: self.steps as nat,
        }
    }
}

impl Machine {
    /// What every machine built from `new` and advanced by `step` or `run`
    /// satisfies: see `within_bounds`.
    pub open spec fn wf(&self) -> bool {
        within_bounds(self@)
    }

    /// A machine that starts in state A at position 0 on a blank tape.
    pub fn new(table: TransitionTable) -> (machine: Self)
        ensures
            machine.wf(),
            machine@ == start(table@),
    {
        Self { table, tape: Tape::new(), head: 0, state: State::Normal(0), steps: 0 }
    }

    /// Executes one transition and reports the status after it.
    pub fn step(&mut self) -> (status: RunStatus)
        requires
            old(self).wf(),
            fits_platform(step_of(old(self)@).0),
        ensures
            final(self).wf(),
            (final(self)@, status) == step_of(old(self)@),
    {
        if self.state == State::Halt {
            return RunStatus::Halted;
        }
        proof {
            assert(cell_index(self.head as int) <= self.steps);
            lemma_step_shape(self@);
        }
        let symbol = self.tape.read(self.head);
        let transition = match self.table.get(self.state, symbol) {
            Some(transition) => transition,
            None => return RunStatus::MissingTransition,
        };
        self.tape.write(self.head, transition.write);
        match transition.direction {
            Direction::Left => self.head = self.head - 1,
            Direction::Right => self.head = self.head + 1,
        }
        self.state = transition.next_state;
        self.steps = self.steps + 1;
        if self.state == State::Halt {
            RunStatus::Halted
        } else {
            RunStatus::Running
        }
    }

    /// Runs until the machine halts, misses a rule, or has taken
    /// `max_steps` steps in all.
    pub fn run(&mut self, max_steps: u64) -> (status: RunStatus)
        requires
            old(self).wf(),
            step_limit_fits(max_steps as int) || fits_platform(run_of(old(self)@, max_steps as nat).0),
        ensures
            final(self).wf(),
            (final(self)@, status) == run_of(old(self)@, max_steps as nat),
    {
        proof {
            if step_limit_fits(max_steps as int) {
                lemma_budget_fits(self@, max_steps as nat);
            }
        }
        while self.steps < max_steps
            invariant_except_break
                self.wf(),
                fits_platform(run_of(self@, max_steps as nat).0),
                run_of(self@, max_steps as nat) == run_of(old(self)@, max_steps as nat),
            ensures
                self.wf(),
                self.steps >= max_steps,
                run_of(self@, max_steps as nat) == run_of(old(self)@, max_steps as nat),
            decreases max_steps - self.steps,
        {
            let ghost before = self@;
            proof {
                lemma_run_covers_next_step(self@, max_steps as nat);
            }
            let status = self.step();
            match status {
                RunStatus::Running => {},
                status => {
                    return status;
                },
            }
            assert(self@.steps == before.steps + 1);
        }
        RunStatus::StepLimitReached
    }

    /// The number of steps taken so far.
    pub fn steps(&self) -> (steps: u64)
        ensures
            steps == self@.steps,
    {
        self.steps
    }

    /// The number of ones on the tape.
    pub fn ones(&self) -> (ones: usize)
        requires
            self.wf(),
        ensures
            ones == self@.tape.ones(),
    {
        self.tape.count_ones()
    }

    /// The current state.
    pub fn state(&self) -> (state: State)
        ensures
            state == self@.state,
    {
        self.state
    }

    /// The state, head position, step count and number of ones, together.
    pub fn snapshot(&self) -> (snapshot: MachineSnapshot)
        requires
            self.wf(),
        ensures
            snapshot.state == self@.state,
            snapshot.head == self@.head,
            snapshot.steps == self@.steps,
            snapshot.ones == self@.tape.ones(),
    {
        MachineSnapshot { state: self.state, head: self.head, steps: self.steps, ones: self.ones() }
    }

    /// The transition table the machine runs.
    pub fn table(&self) -> (table: &TransitionTable)
        ensures
            table@ == self@.table,
    {
        &self.table
    }
}

} // verus!
