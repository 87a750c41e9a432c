//! The Busy Beaver search: generate every machine, run it, see whether it
//! halts, and keep the champions.

use crate::generator::{
    all_tables, candidates_of, law_candidates, lemma_all_tables_complete, lemma_all_tables_distinct,
    lemma_all_tables_len, lemma_all_tables_shape, MachineGenerator, TableSink,
};
use crate::machine::{run_of, start, step_limit_fits, fits_platform, law_run_outcome, Machine, RunStatus, TableView, TransitionTable};
use crate::model::{Direction, State, Transition};
use vstd::arithmetic::power::pow;
use std::time::{Duration, Instant};
use vstd::prelude::*;

verus! {

/// Declares `std::time::Instant`, the clock reading a search is timed
/// from; the proofs see it as opaque.
#[verifier::external_type_specification]
#[verifier::external_body]
pub struct ExInstant(Instant);

/// Reads the clock through `std::time::Instant::now`; what it returns
/// depends on the time, so nothing is stated of it.
#[verifier::external_body]
fn clock_now() -> Instant {
    Instant::now()
}

/// The time since `started`, through `std::time::Instant::elapsed`; it
/// depends on the clock, so nothing is stated of it.
#[verifier::external_body]
fn clock_elapsed(started: &Instant) -> Duration {
    started.elapsed()
}

/// The zero duration, `std::time::Duration::ZERO`. `Duration` is opaque to
/// the proofs, so nothing is stated of it.
#[verifier::external_body]
fn zero_duration() -> Duration {
    Duration::ZERO
}

/// `Duration` is `Copy`: its `clone` gives back the same duration.
pub assume_specification[ <Duration as Clone>::clone ](duration: &Duration) -> (copy: Duration)
    ensures
        copy == *duration,
;

/// Search settings.
#[derive(Clone, Copy, Debug)]
pub struct SearchConfig {
    /// The number of normal states: 2 for BB(2), 3 for BB(3).
    pub state_count: u8,
    /// The number of symbols: 2 for the classic Busy Beaver.
    pub symbol_count: u8,
    /// The step budget of each machine, which stops machines that never halt.
    pub max_steps: u64,
    /// A progress line is due every this many machines; 0 turns it off.
    pub progress_interval: usize,
}

impl SearchConfig {
    /// Settings with a progress line every 10 000 machines.
    pub fn new(state_count: u8, symbol_count: u8, max_steps: u64) -> (config: Self)
        ensures
            config.state_count == state_count,
            config.symbol_count == symbol_count,
            config.max_steps == max_steps,
            config.progress_interval == 10_000,
    {
        Self { state_count, symbol_count, max_steps, progress_interval: 10_000 }
    }

    /// The same settings with another progress interval.
    pub fn with_progress_interval(self, progress_interval: usize) -> (config: Self)
        ensures
            config == (SearchConfig { progress_interval, ..self }),
    {
        let mut config = self;
        config.progress_interval = progress_interval;
        config
    }

    /// The default settings for BB(2): 2 states, 2 symbols, 100 steps.
    pub fn bb2() -> (config: Self)
        ensures
            config == (SearchConfig { state_count: 2, symbol_count: 2, max_steps: 100, progress_interval: 10_000 }),
    {
        Self::new(2, 2, 100)
    }

    /// The default settings for BB(3): 3 states, 2 symbols, 100 steps.
    pub fn bb3() -> (config: Self)
        ensures
            config == (SearchConfig { state_count: 3, symbol_count: 2, max_steps: 100, progress_interval: 10_000 }),
    {
        Self::new(3, 2, 100)
    }

    /// Every table the search runs, in the order it runs them.
    pub open spec fn tables(self) -> Seq<TableView> {
        all_tables(
            candidates_of(self.state_count, self.symbol_count),
            (self.state_count * self.symbol_count) as nat,
        ).map_values(|t: Seq<Transition>| TableView { symbol_count: self.symbol_count, transitions: t })
    }
}

/// What a champion group holds.
pub struct ChampionView {
    pub best_ones: nat,
    pub best_steps: nat,
    pub tables: Seq<TableView>,
}

/// A group of Busy Beaver champions.
#[derive(Clone, Debug)]
pub struct ChampionGroup {
    pub best_ones: usize,
    pub best_steps: u64,
    pub tables: Vec<TransitionTable>,
}

impl View for ChampionGroup {
    type V = ChampionView;

    open spec fn view(&self) -> ChampionView {
        ChampionView {
            best_ones: self.best_ones as nat,
            best_steps: self.best_steps as nat,
            tables: self.tables@.map_values(|t: TransitionTable| t@),
        }
    }
}

impl ChampionGroup {
    /// A group with no champion yet.
    pub fn new() -> (group: Self)
        ensures
            group@ == (ChampionView { best_ones: 0, best_steps: 0, tables: Seq::empty() }),
    {
        let group = Self { best_ones: 0, best_steps: 0, tables: Vec::new() };
        assert(group@.tables =~= Seq::empty());
        group
    }

    /// Whether no champion has been found.
    pub fn is_empty(&self) -> (empty: bool)
        ensures
            empty == (self@.tables.len() == 0),
    {
        self.tables.len() == 0
    }

    /// The number of champion machines.
    pub fn len(&self) -> (count: usize)
        ensures
            count == self@.tables.len(),
    {
        self.tables.len()
    }
}

/// What a search result holds, apart from the time it took.
pub struct ResultView {
    pub total: nat,
    pub halted: nat,
    pub step_limited: nat,
    pub missing: nat,
    pub sigma: ChampionView,
    pub step: ChampionView,
}

/// The result of a search.
#[derive(Clone, Debug)]
pub struct SearchResult {
    pub total_machines: usize,
    pub halted_machines: usize,
    pub step_limited_machines: usize,
    pub missing_transition_machines: usize,
    pub sigma_champions: ChampionGroup,
    pub step_champions: ChampionGroup,
    pub elapsed: Duration,
}

impl View for SearchResult {
    type V = ResultView;

    open spec fn view(&self) -> ResultView {
        ResultView {
            total: self.total_machines as nat,
            halted: self.halted_machines as nat,
            step_limited: self.step_limited_machines as nat,
            missing: self.missing_transition_machines as nat,
            sigma: self.sigma_champions@,
            step: self.step_champions@,
        }
    }
}

/// The result before any machine is searched.
pub open spec fn empty_result() -> ResultView {
    ResultView {
        total: 0,
        halted: 0,
        step_limited: 0,
        missing: 0,
        sigma: ChampionView { best_ones: 0, best_steps: 0, tables: Seq::empty() },
        step: ChampionView { best_ones: 0, best_steps: 0, tables: Seq::empty() },
    }
}

impl SearchResult {
    /// An empty result.
    pub fn new() -> (result: Self)
        ensures
            result@ == empty_result(),
    {
        Self {
            total_machines: 0,
            halted_machines: 0,
            step_limited_machines: 0,
            missing_transition_machines: 0,
            sigma_champions: ChampionGroup::new(),
            step_champions: ChampionGroup::new(),
            elapsed: zero_duration(),
        }
    }
}

/// The larger of two numbers.
pub open spec fn max_of(a: nat, b: nat) -> nat {
    if a >= b {
        a
    } else {
        b
    }
}

/// The Σ(n) group after a halted machine with `ones` ones and `steps` steps:
/// a new record replaces the group, a tie joins it (and raises the group's
/// step count if it ran longer), anything else leaves it as it was.
pub open spec fn updated_sigma(group: ChampionView, ones: nat, steps: nat, table: TableView) -> ChampionView {
    if group.tables.len() == 0 || ones > group.best_ones {
        ChampionView { best_ones: ones, best_steps: steps, tables: seq![table] }
    } else if ones == group.best_ones {
        ChampionView {
            best_ones: group.best_ones,
            best_steps: max_of(group.best_steps, steps),
            tables: group.tables.push(table),
        }
    } else {
        group
    }
}

/// The S(n) group after a halted machine with `ones` ones and `steps` steps:
/// a new record replaces the group, a tie joins it (and raises the group's
/// count of ones if it left more), anything else leaves it as it was.
pub open spec fn updated_steps(group: ChampionView, ones: nat, steps: nat, table: TableView) -> ChampionView {
    if group.tables.len() == 0 || steps > group.best_steps {
        ChampionView { best_ones: ones, best_steps: steps, tables: seq![table] }
    } else if steps == group.best_steps {
        ChampionView {
            best_ones: max_of(group.best_ones, ones),
            best_steps: group.best_steps,
            tables: group.tables.push(table),
        }
    } else {
        group
    }
}

/// How the machine of `table` ends when given `max_steps` steps.
pub open spec fn outcome(table: TableView, max_steps: nat) -> (crate::machine::MachineView, RunStatus) {
    run_of(start(table), max_steps)
}

/// The result after running the machine of `table` and recording how it ended.
pub open spec fn recorded(result: ResultView, table: TableView, max_steps: nat) -> ResultView {
    let (last, status) = outcome(table, max_steps);
    let counted = ResultView { total: result.total + 1, ..result };
    match status {
        RunStatus::Halted => ResultView {
            halted: result.halted + 1,
            sigma: updated_sigma(result.sigma, last.tape.ones(), last.steps, table),
            step: updated_steps(result.step, last.tape.ones(), last.steps, table),
            ..counted
        },
        RunStatus::StepLimitReached => ResultView { step_limited: result.step_limited + 1, ..counted },
        RunStatus::MissingTransition => ResultView { missing: result.missing + 1, ..counted },
        RunStatus::Running => counted,
    }
}

/// The result after recording every table of `tables`, in order.
pub open spec fn recorded_all(result: ResultView, tables: Seq<TableView>, max_steps: nat) -> ResultView
    decreases tables.len(),
{
    if tables.len() == 0 {
        result
    } else {
        recorded(recorded_all(result, tables.drop_last(), max_steps), tables.last(), max_steps)
    }
}

/// Whether a progress line is due after `total` machines.
pub open spec fn progress_due(config: SearchConfig, total: int) -> bool {
    config.progress_interval > 0 && total % (config.progress_interval as int) == 0
}

/// Whether `rule` is one a machine of `state_count` states over
/// `symbol_count` symbols may hold: it writes one of the symbols and leads to
/// one of the states or halts.
pub open spec fn rule_in_range(rule: Transition, state_count: u8, symbol_count: u8) -> bool {
    &&& rule.write < symbol_count
    &&& (rule.next_state == State::Halt || (rule.next_state matches State::Normal(id) && id < state_count))
}

/// The tables a search runs are every table of `state_count * symbol_count`
/// slots of rules in range, over the configured symbols, each once: there
/// are `(symbol_count * 2 * (state_count + 1))` to the power
/// `state_count * symbol_count` of them.
pub proof fn law_search_tables(config: SearchConfig, table: TableView)
    ensures
        config.tables().len() == pow(
            config.symbol_count * 2 * (config.state_count + 1),
            (config.state_count * config.symbol_count) as nat,
        ),
        forall|i: int|
            0 <= i < config.tables().len() ==> (#[trigger] config.tables()[i]).symbol_count == config.symbol_count
                && config.tables()[i].transitions.len() == config.state_count * config.symbol_count,
        forall|i: int, j: int|
            0 <= i < config.tables().len() && 0 <= j < config.state_count * config.symbol_count ==> rule_in_range(
                #[trigger] config.tables()[i].transitions[j],
                config.state_count,
                config.symbol_count,
            ),
        table.symbol_count == config.symbol_count && table.transitions.len() == config.state_count
            * config.symbol_count && (forall|j: int|
            0 <= j < table.transitions.len() ==> rule_in_range(
                #[trigger] table.transitions[j],
                config.state_count,
                config.symbol_count,
            )) ==> config.tables().contains(table),
        config.tables().no_duplicates(),
{
    let sc = config.state_count;
    let sym = config.symbol_count;
    let cands = candidates_of(sc, sym);
    let n = (sc * sym) as nat;
    let all = all_tables(cands, n);
    let listed = config.tables();
    law_candidates(sc, sym, Transition { write: 0, direction: Direction::Left, next_state: State::Halt });
    lemma_all_tables_len(cands, n);
    assert forall|i: int| 0 <= i < listed.len() implies (#[trigger] listed[i]).symbol_count == sym
        && listed[i].transitions.len() == sc * sym by {
        lemma_all_tables_shape(cands, n, i);
    }
    assert forall|i: int, j: int| 0 <= i < listed.len() && 0 <= j < sc * sym implies rule_in_range(
        #[trigger] listed[i].transitions[j], sc, sym) by {
        lemma_all_tables_shape(cands, n, i);
        assert(cands.contains(all[i][j]));
        law_candidates(sc, sym, all[i][j]);
    }
    if table.symbol_count == sym && table.transitions.len() == sc * sym && (forall|j: int|
        0 <= j < table.transitions.len() ==> rule_in_range(#[trigger] table.transitions[j], sc, sym)) {
        let tr = table.transitions;
        assert forall|j: int| 0 <= j < n implies cands.contains(#[trigger] tr[j]) by {
            law_candidates(sc, sym, tr[j]);
        }
        lemma_all_tables_complete(cands, n, tr);
        let i = choose|i: int| 0 <= i < all.len() && all[i] == tr;
        assert(listed[i] == table);
    }
    lemma_all_tables_distinct(cands, n);
    assert forall|a: int, b: int| 0 <= a < listed.len() && 0 <= b < listed.len() && a != b implies listed[a] != listed[b] by {
        assert(all[a] != all[b]);
    }
}

/// Progress lines are off when the interval is 0; otherwise one is due
/// after every whole multiple of the interval and at no other count.
pub proof fn law_progress_due(config: SearchConfig, total: nat)
    ensures
        config.progress_interval == 0 ==> !progress_due(config, total as int),
        config.progress_interval > 0 ==> (progress_due(config, total as int) <==> exists|k: nat|
            total == #[trigger] (k * config.progress_interval)),
{
    if config.progress_interval > 0 {
        let d = config.progress_interval as int;
        let t = total as int;
        vstd::arithmetic::div_mod::lemma_fundamental_div_mod(t, d);
        if t % d == 0 {
            let q = t / d;
            assert(q >= 0) by (nonlinear_arith)
                requires
                    t >= 0,
                    d > 0,
                    q == t / d,
            ;
            let k = q as nat;
            assert(t == k * config.progress_interval) by (nonlinear_arith)
                requires
                    t == d * q + t % d,
                    t % d == 0,
                    k == q,
                    d == config.progress_interval,
            ;
        }
        if exists|k: nat| total == #[trigger] (k * config.progress_interval) {
            let k = choose|k: nat| total == #[trigger] (k * config.progress_interval);
            vstd::arithmetic::div_mod::lemma_fundamental_div_mod_converse(t, d, k as int, 0);
        }
    }
}

/// Whether every machine recorded so far is counted in exactly one of
/// halted, step-limited and missing-transition.
pub open spec fn counts_consistent(result: ResultView) -> bool {
    result.halted + result.step_limited + result.missing == result.total
}

/// Recording counts each table once, in exactly one outcome class.
proof fn lemma_recorded_all_counts(result: ResultView, tables: Seq<TableView>, max_steps: nat)
    ensures
        recorded_all(result, tables, max_steps).total == result.total + tables.len(),
        counts_consistent(result) ==> counts_consistent(recorded_all(result, tables, max_steps)),
    decreases tables.len(),
{
    if tables.len() > 0 {
        lemma_recorded_all_counts(result, tables.drop_last(), max_steps);
        law_run_outcome(start(tables.last()), max_steps);
    }
}

/// Whether the machine of `table` halts within `max_steps` steps.
pub open spec fn halts(table: TableView, max_steps: nat) -> bool {
    outcome(table, max_steps).1 == RunStatus::Halted
}

/// The number of ones the machine of `table` leaves when it stops.
pub open spec fn ones_left(table: TableView, max_steps: nat) -> nat {
    outcome(table, max_steps).0.tape.ones()
}

/// The number of steps the machine of `table` takes before it stops.
pub open spec fn steps_taken(table: TableView, max_steps: nat) -> nat {
    outcome(table, max_steps).0.steps
}

/// The tables whose machine ends with `status`.
pub open spec fn ends_with(max_steps: nat, status: RunStatus) -> spec_fn(TableView) -> bool {
    |t: TableView| outcome(t, max_steps).1 == status
}

/// The halting tables that leave exactly `ones` ones.
pub open spec fn sigma_member(max_steps: nat, ones: nat) -> spec_fn(TableView) -> bool {
    |t: TableView| halts(t, max_steps) && ones_left(t, max_steps) == ones
}

/// The halting tables that take exactly `steps` steps.
pub open spec fn step_member(max_steps: nat, steps: nat) -> spec_fn(TableView) -> bool {
    |t: TableView| halts(t, max_steps) && steps_taken(t, max_steps) == steps
}

/// Filtering a sequence extended by one element.
proof fn lemma_filter_push<A>(s: Seq<A>, x: A, p: spec_fn(A) -> bool)
    ensures
        s.push(x).filter(p) == if p(x) {
            s.filter(p).push(x)
        } else {
            s.filter(p)
        },
{
    reveal(Seq::filter);
    assert(s.push(x).drop_last() =~= s);
}

/// Filtering keeps nothing when nothing qualifies.
proof fn lemma_filter_none<A>(s: Seq<A>, p: spec_fn(A) -> bool)
    requires
        forall|i: int| 0 <= i < s.len() ==> !p(#[trigger] s[i]),
    ensures
        s.filter(p) == Seq::<A>::empty(),
    decreases s.len(),
{
    reveal(Seq::filter);
    if s.len() > 0 {
        assert forall|i: int| 0 <= i < s.drop_last().len() implies !p(#[trigger] s.drop_last()[i]) by {
            assert(s.drop_last()[i] == s[i]);
        }
        lemma_filter_none(s.drop_last(), p);
        assert(!p(s[s.len() - 1]));
    }
    assert(s.filter(p) =~= Seq::<A>::empty());
}

/// The search counts every table once, under how its machine ended.
pub proof fn law_search_counts(tables: Seq<TableView>, max_steps: nat)
    ensures
        ({
            let result = recorded_all(empty_result(), tables, max_steps);
            &&& result.total == tables.len()
            &&& counts_consistent(result)
            &&& result.halted == tables.filter(ends_with(max_steps, RunStatus::Halted)).len()
            &&& result.step_limited == tables.filter(ends_with(max_steps, RunStatus::StepLimitReached)).len()
            &&& result.missing == tables.filter(ends_with(max_steps, RunStatus::MissingTransition)).len()
        }),
    decreases tables.len(),
{
    lemma_recorded_all_counts(empty_result(), tables, max_steps);
    if tables.len() == 0 {
        reveal(Seq::filter);
    } else {
        let rest = tables.drop_last();
        let x = tables.last();
        law_search_counts(rest, max_steps);
        law_run_outcome(start(x), max_steps);
        assert(rest.push(x) =~= tables);
        lemma_filter_push(rest, x, ends_with(max_steps, RunStatus::Halted));
        lemma_filter_push(rest, x, ends_with(max_steps, RunStatus::StepLimitReached));
        lemma_filter_push(rest, x, ends_with(max_steps, RunStatus::MissingTransition));
    }
}

/// Σ(n): the Σ champion group holds exactly the halting machines that leave
/// the most ones, in the order they were searched; it is empty only when no
/// machine halts; and its step count is the longest run among its machines.
pub proof fn law_sigma_champions(tables: Seq<TableView>, max_steps: nat)
    ensures
        ({
            let group = recorded_all(empty_result(), tables, max_steps).sigma;
            &&& (group.tables.len() == 0) == (forall|i: int| 0 <= i < tables.len() ==> !halts(#[trigger] tables[i], max_steps))
            &&& group.tables.len() == 0 ==> group.best_ones == 0 && group.best_steps == 0
            &&& forall|i: int|
                0 <= i < tables.len() && halts(#[trigger] tables[i], max_steps) ==> ones_left(tables[i], max_steps) <= group.best_ones
            &&& group.tables == tables.filter(sigma_member(max_steps, group.best_ones))
            &&& forall|j: int| 0 <= j < group.tables.len() ==> steps_taken(#[trigger] group.tables[j], max_steps) <= group.best_steps
            &&& group.tables.len() > 0 ==> exists|j: int|
                0 <= j < group.tables.len() && steps_taken(#[trigger] group.tables[j], max_steps) == group.best_steps
        }),
    decreases tables.len(),
{
    let group = recorded_all(empty_result(), tables, max_steps).sigma;
    if tables.len() == 0 {
        reveal(Seq::filter);
        assert(group.tables =~= tables.filter(sigma_member(max_steps, group.best_ones)));
    } else {
        let rest = tables.drop_last();
        let x = tables.last();
        assert(rest.push(x) =~= tables);
        law_sigma_champions(rest, max_steps);
        let before = recorded_all(empty_result(), rest, max_steps).sigma;
        let o = ones_left(x, max_steps);
        let s = steps_taken(x, max_steps);
        assert forall|i: int| 0 <= i < rest.len() implies #[trigger] rest[i] == tables[i] by {}
        if halts(x, max_steps) {
            assert(group == updated_sigma(before, o, s, x));
            lemma_filter_push(rest, x, sigma_member(max_steps, group.best_ones));
            if before.tables.len() == 0 || o > before.best_ones {
                assert forall|i: int| 0 <= i < rest.len() implies !sigma_member(max_steps, o)(#[trigger] rest[i]) by {
                    if halts(rest[i], max_steps) {
                        assert(ones_left(rest[i], max_steps) <= before.best_ones);
                    }
                }
                lemma_filter_none(rest, sigma_member(max_steps, o));
                assert(group.tables =~= Seq::<TableView>::empty().push(x));
                assert(group.tables[0] == x);
            } else if o == before.best_ones {
                assert(group.tables == before.tables.push(x));
                assert forall|j: int| 0 <= j < group.tables.len() implies steps_taken(#[trigger] group.tables[j], max_steps) <= group.best_steps by {
                    if j < before.tables.len() {
                        assert(group.tables[j] == before.tables[j]);
                    }
                }
                if s >= before.best_steps {
                    assert(group.tables[group.tables.len() - 1] == x);
                } else {
                    let j = choose|j: int| 0 <= j < before.tables.len() && steps_taken(#[trigger] before.tables[j], max_steps) == before.best_steps;
                    assert(group.tables[j] == before.tables[j]);
                }
            } else {
                assert(group == before);
            }
            assert(!(forall|i: int| 0 <= i < tables.len() ==> !halts(#[trigger] tables[i], max_steps))) by {
                assert(tables[tables.len() - 1] == x);
            }
        } else {
            law_run_outcome(start(x), max_steps);
            assert(group == before);
            lemma_filter_push(rest, x, sigma_member(max_steps, group.best_ones));
        }
    }
}

/// S(n): the step champion group holds exactly the halting machines that run
/// the most steps, in the order they were searched; it is empty only when no
/// machine halts; and its count of ones is the most any of its machines leaves.
pub proof fn law_step_champions(tables: Seq<TableView>, max_steps: nat)
    ensures
        ({
            let group = recorded_all(empty_result(), tables, max_steps).step;
            &&& (group.tables.len() == 0) == (forall|i: int| 0 <= i < tables.len() ==> !halts(#[trigger] tables[i], max_steps))
            &&& group.tables.len() == 0 ==> group.best_ones == 0 && group.best_steps == 0
            &&& forall|i: int|
                0 <= i < tables.len() && halts(#[trigger] tables[i], max_steps) ==> steps_taken(tables[i], max_steps) <= group.best_steps
            &&& group.tables == tables.filter(step_member(max_steps, group.best_steps))
            &&& forall|j: int| 0 <= j < group.tables.len() ==> ones_left(#[trigger] group.tables[j], max_steps) <= group.best_ones
            &&& group.tables.len() > 0 ==> exists|j: int|
                0 <= j < group.tables.len() && ones_left(#[trigger] group.tables[j], max_steps) == group.best_ones
        }),
    decreases tables.len(),
{
    let group = recorded_all(empty_result(), tables, max_steps).step;
    if tables.len() == 0 {
        reveal(Seq::filter);
        assert(group.tables =~= tables.filter(step_member(max_steps, group.best_steps)));
    } else {
        let rest = tables.drop_last();
        let x = tables.last();
        assert(rest.push(x) =~= tables);
        law_step_champions(rest, max_steps);
        let before = recorded_all(empty_result(), rest, max_steps).step;
        let o = ones_left(x, max_steps);
        let s = steps_taken(x, max_steps);
        assert forall|i: int| 0 <= i < rest.len() implies #[trigger] rest[i] == tables[i] by {}
        if halts(x, max_steps) {
            assert(group == updated_steps(before, o, s, x));
            lemma_filter_push(rest, x, step_member(max_steps, group.best_steps));
            if before.tables.len() == 0 || s > before.best_steps {
                assert forall|i: int| 0 <= i < rest.len() implies !step_member(max_steps, s)(#[trigger] rest[i]) by {
                    if halts(rest[i], max_steps) {
                        assert(steps_taken(rest[i], max_steps) <= before.best_steps);
                    }
                }
                lemma_filter_none(rest, step_member(max_steps, s));
                assert(group.tables =~= Seq::<TableView>::empty().push(x));
                assert(group.tables[0] == x);
            } else if s == before.best_steps {
                assert(group.tables == before.tables.push(x));
                assert forall|j: int| 0 <= j < group.tables.len() implies ones_left(#[trigger] group.tables[j], max_steps) <= group.best_ones by {
                    if j < before.tables.len() {
                        assert(group.tables[j] == before.tables[j]);
                    }
                }
                if o >= before.best_ones {
                    assert(group.tables[group.tables.len() - 1] == x);
                } else {
                    let j = choose|j: int| 0 <= j < before.tables.len() && ones_left(#[trigger] before.tables[j], max_steps) == before.best_ones;
                    assert(group.tables[j] == before.tables[j]);
                }
            } else {
                assert(group == before);
            }
            assert(!(forall|i: int| 0 <= i < tables.len() ==> !halts(#[trigger] tables[i], max_steps))) by {
                assert(tables[tables.len() - 1] == x);
            }
        } else {
            law_run_outcome(start(x), max_steps);
            assert(group == before);
            lemma_filter_push(rest, x, step_member(max_steps, group.best_steps));
        }
    }
}

/// Filtering by a weaker condition keeps at least as many elements.
proof fn lemma_filter_len_weaker<A>(s: Seq<A>, p: spec_fn(A) -> bool, q: spec_fn(A) -> bool)
    requires
        forall|i: int| 0 <= i < s.len() && p(#[trigger] s[i]) ==> q(s[i]),
    ensures
        s.filter(p).len() <= s.filter(q).len(),
    decreases s.len(),
{
    reveal(Seq::filter);
    if s.len() > 0 {
        assert forall|i: int| 0 <= i < s.drop_last().len() && p(#[trigger] s.drop_last()[i]) implies q(s.drop_last()[i]) by {
            assert(s.drop_last()[i] == s[i]);
        }
        lemma_filter_len_weaker(s.drop_last(), p, q);
        assert(s[s.len() - 1] == s.last());
    }
}

/// A run that ends before its budget ends the same way under any larger
/// budget.
proof fn lemma_run_settled(m: crate::machine::MachineView, first: nat, second: nat)
    requires
        first <= second,
        run_of(m, first).1 != RunStatus::StepLimitReached,
    ensures
        run_of(m, second) == run_of(m, first),
    decreases first - m.steps,
{
    if m.steps < first {
        let (next, status) = crate::machine::step_of(m);
        if status == RunStatus::Running {
            lemma_run_settled(next, first, second);
        }
    }
}

/// A larger step budget never changes how many tables are searched, never
/// halts fewer machines or misses fewer rules, never stops more machines at
/// the limit, and never lowers the Σ(n) count of ones or the S(n) step count.
pub proof fn law_budget_monotone(tables: Seq<TableView>, smaller: nat, larger: nat)
    requires
        smaller <= larger,
    ensures
        ({
            let low = recorded_all(empty_result(), tables, smaller);
            let high = recorded_all(empty_result(), tables, larger);
            &&& low.total == high.total
            &&& low.halted <= high.halted
            &&& low.missing <= high.missing
            &&& low.step_limited >= high.step_limited
            &&& low.sigma.best_ones <= high.sigma.best_ones
            &&& low.step.best_steps <= high.step.best_steps
        }),
{
    let low = recorded_all(empty_result(), tables, smaller);
    let high = recorded_all(empty_result(), tables, larger);
    law_search_counts(tables, smaller);
    law_search_counts(tables, larger);
    assert forall|i: int| 0 <= i < tables.len() && outcome(#[trigger] tables[i], smaller).1 != RunStatus::StepLimitReached
        implies outcome(tables[i], larger) == outcome(tables[i], smaller) by {
        lemma_run_settled(start(tables[i]), smaller, larger);
    }
    lemma_filter_len_weaker(tables, ends_with(smaller, RunStatus::Halted), ends_with(larger, RunStatus::Halted));
    lemma_filter_len_weaker(tables, ends_with(smaller, RunStatus::MissingTransition), ends_with(larger, RunStatus::MissingTransition));
    lemma_filter_len_weaker(tables, ends_with(larger, RunStatus::StepLimitReached), ends_with(smaller, RunStatus::StepLimitReached));
    law_sigma_champions(tables, smaller);
    law_sigma_champions(tables, larger);
    law_step_champions(tables, smaller);
    law_step_champions(tables, larger);
    if low.sigma.tables.len() > 0 {
        let x = low.sigma.tables[0];
        assert(tables.filter(sigma_member(smaller, low.sigma.best_ones)).contains(x));
        tables.lemma_filter_contains_rev(sigma_member(smaller, low.sigma.best_ones), x);
        tables.lemma_filter_pred(sigma_member(smaller, low.sigma.best_ones), 0);
        let i = choose|i: int| 0 <= i < tables.len() && tables[i] == x;
        assert(halts(tables[i], smaller));
    }
    if low.step.tables.len() > 0 {
        let x = low.step.tables[0];
        assert(tables.filter(step_member(smaller, low.step.best_steps)).contains(x));
        tables.lemma_filter_contains_rev(step_member(smaller, low.step.best_steps), x);
        tables.lemma_filter_pred(step_member(smaller, low.step.best_steps), 0);
        let i = choose|i: int| 0 <= i < tables.len() && tables[i] == x;
        assert(halts(tables[i], smaller));
    }
}

/// One halted machine as the champion updates see it: its ones, its steps
/// and its table.
pub type ChampionEntry = (nat, nat, TableView);

/// A group with no champion.
pub open spec fn empty_group() -> ChampionView {
    ChampionView { best_ones: 0, best_steps: 0, tables: Seq::empty() }
}

/// The Σ(n) group after updating an empty group with `entries` in order.
pub open spec fn sigma_after(entries: Seq<ChampionEntry>) -> ChampionView
    decreases entries.len(),
{
    if entries.len() == 0 {
        empty_group()
    } else {
        let e = entries.last();
        updated_sigma(sigma_after(entries.drop_last()), e.0, e.1, e.2)
    }
}

/// The S(n) group after updating an empty group with `entries` in order.
pub open spec fn steps_after(entries: Seq<ChampionEntry>) -> ChampionView
    decreases entries.len(),
{
    if entries.len() == 0 {
        empty_group()
    } else {
        let e = entries.last();
        updated_steps(steps_after(entries.drop_last()), e.0, e.1, e.2)
    }
}

/// The entries that leave exactly `ones` ones.
pub open spec fn with_ones(ones: nat) -> spec_fn(ChampionEntry) -> bool {
    |e: ChampionEntry| e.0 == ones
}

/// The entries that take exactly `steps` steps.
pub open spec fn with_steps(steps: nat) -> spec_fn(ChampionEntry) -> bool {
    |e: ChampionEntry| e.1 == steps
}

/// The table of an entry.
pub open spec fn entry_table(e: ChampionEntry) -> TableView {
    e.2
}

/// Σ(n) updates over any sequence of halted machines, starting from an empty
/// group: the group is non-empty once anything came; its count of ones is
/// the largest that came; it holds the tables with that count, in the order
/// they came; and its step count is the largest among them.
pub proof fn law_sigma_updates(entries: Seq<ChampionEntry>)
    ensures
        ({
            let group = sigma_after(entries);
            let tied = entries.filter(with_ones(group.best_ones));
            &&& entries.len() == 0 ==> group == empty_group()
            &&& entries.len() > 0 ==> group.tables.len() > 0
            &&& forall|i: int| 0 <= i < entries.len() ==> (#[trigger] entries[i]).0 <= group.best_ones
            &&& entries.len() > 0 ==> exists|i: int| 0 <= i < entries.len() && (#[trigger] entries[i]).0 == group.best_ones
            &&& group.tables == tied.map_values(|e: ChampionEntry| entry_table(e))
            &&& forall|j: int| 0 <= j < tied.len() ==> (#[trigger] tied[j]).1 <= group.best_steps
            &&& entries.len() > 0 ==> exists|j: int| 0 <= j < tied.len() && (#[trigger] tied[j]).1 == group.best_steps
        }),
    decreases entries.len(),
{
    let group = sigma_after(entries);
    if entries.len() == 0 {
        reveal(Seq::filter);
        assert(group.tables =~= entries.filter(with_ones(group.best_ones)).map_values(|e: ChampionEntry| entry_table(e)));
    } else {
        let rest = entries.drop_last();
        let x = entries.last();
        assert(rest.push(x) =~= entries);
        law_sigma_updates(rest);
        let before = sigma_after(rest);
        let before_tied = rest.filter(with_ones(before.best_ones));
        assert forall|i: int| 0 <= i < rest.len() implies #[trigger] rest[i] == entries[i] by {}
        lemma_filter_push(rest, x, with_ones(group.best_ones));
        let tied = entries.filter(with_ones(group.best_ones));
        if before.tables.len() == 0 || x.0 > before.best_ones {
            if rest.len() > 0 {
                assert(before.tables.len() > 0);
            }
            assert forall|i: int| 0 <= i < rest.len() implies !with_ones(x.0)(#[trigger] rest[i]) by {}
            lemma_filter_none(rest, with_ones(x.0));
            assert(tied =~= seq![x]);
            assert(group.tables =~= tied.map_values(|e: ChampionEntry| entry_table(e)));
            assert(tied[0] == x);
            assert(entries[entries.len() - 1] == x);
        } else if x.0 == before.best_ones {
            assert(tied == before_tied.push(x));
            assert(group.tables =~= tied.map_values(|e: ChampionEntry| entry_table(e)));
            assert forall|j: int| 0 <= j < tied.len() implies (#[trigger] tied[j]).1 <= group.best_steps by {
                if j < before_tied.len() {
                    assert(tied[j] == before_tied[j]);
                }
            }
            if x.1 >= before.best_steps {
                assert(tied[tied.len() - 1] == x);
            } else {
                let j = choose|j: int| 0 <= j < before_tied.len() && (#[trigger] before_tied[j]).1 == before.best_steps;
                assert(tied[j] == before_tied[j]);
            }
            let i = choose|i: int| 0 <= i < rest.len() && (#[trigger] rest[i]).0 == before.best_ones;
            assert(entries[i] == rest[i]);
        } else {
            assert(group == before);
            let i = choose|i: int| 0 <= i < rest.len() && (#[trigger] rest[i]).0 == before.best_ones;
            assert(entries[i] == rest[i]);
        }
        assert(entries[entries.len() - 1] == x);
    }
}

/// S(n) updates over any sequence of halted machines, starting from an empty
/// group: the group is non-empty once anything came; its step count is the
/// largest that came; it holds the tables with that count, in the order they
/// came; and its count of ones is the largest among them.
pub proof fn law_step_updates(entries: Seq<ChampionEntry>)
    ensures
        ({
            let group = steps_after(entries);
            let tied = entries.filter(with_steps(group.best_steps));
            &&& entries.len() == 0 ==> group == empty_group()
            &&& entries.len() > 0 ==> group.tables.len() > 0
            &&& forall|i: int| 0 <= i < entries.len() ==> (#[trigger] entries[i]).1 <= group.best_steps
            &&& entries.len() > 0 ==> exists|i: int| 0 <= i < entries.len() && (#[trigger] entries[i]).1 == group.best_steps
            &&& group.tables == tied.map_values(|e: ChampionEntry| entry_table(e))
            &&& forall|j: int| 0 <= j < tied.len() ==> (#[trigger] tied[j]).0 <= group.best_ones
            &&& entries.len() > 0 ==> exists|j: int| 0 <= j < tied.len() && (#[trigger] tied[j]).0 == group.best_ones
        }),
    decreases entries.len(),
{
    let group = steps_after(entries);
    if entries.len() == 0 {
        reveal(Seq::filter);
        assert(group.tables =~= entries.filter(with_steps(group.best_steps)).map_values(|e: ChampionEntry| entry_table(e)));
    } else {
        let rest = entries.drop_last();
        let x = entries.last();
        assert(rest.push(x) =~= entries);
        law_step_updates(rest);
        let before = steps_after(rest);
        let before_tied = rest.filter(with_steps(before.best_steps));
        assert forall|i: int| 0 <= i < rest.len() implies #[trigger] rest[i] == entries[i] by {}
        lemma_filter_push(rest, x, with_steps(group.best_steps));
        let tied = entries.filter(with_steps(group.best_steps));
        if before.tables.len() == 0 || x.1 > before.best_steps {
            if rest.len() > 0 {
                assert(before.tables.len() > 0);
            }
            assert forall|i: int| 0 <= i < rest.len() implies !with_steps(x.1)(#[trigger] rest[i]) by {}
            lemma_filter_none(rest, with_steps(x.1));
            assert(tied =~= seq![x]);
            assert(group.tables =~= tied.map_values(|e: ChampionEntry| entry_table(e)));
            assert(tied[0] == x);
            assert(entries[entries.len() - 1] == x);
        } else if x.1 == before.best_steps {
            assert(tied == before_tied.push(x));
            assert(group.tables =~= tied.map_values(|e: ChampionEntry| entry_table(e)));
            assert forall|j: int| 0 <= j < tied.len() implies (#[trigger] tied[j]).0 <= group.best_ones by {
                if j < before_tied.len() {
                    assert(tied[j] == before_tied[j]);
                }
            }
            if x.0 >= before.best_ones {
                assert(tied[tied.len() - 1] == x);
            } else {
                let j = choose|j: int| 0 <= j < before_tied.len() && (#[trigger] before_tied[j]).0 == before.best_ones;
                assert(tied[j] == before_tied[j]);
            }
            let i = choose|i: int| 0 <= i < rest.len() && (#[trigger] rest[i]).1 == before.best_steps;
            assert(entries[i] == rest[i]);
        } else {
            assert(group == before);
            let i = choose|i: int| 0 <= i < rest.len() && (#[trigger] rest[i]).1 == before.best_steps;
            assert(entries[i] == rest[i]);
        }
        assert(entries[entries.len() - 1] == x);
    }
}

/// The sink a search runs its tables into: it records each table it
/// accepts into `result`.
struct SearchSink {
    search: BusyBeaverSearch,
    result: SearchResult,
    seen: Ghost<Seq<TableView>>,
}

impl TableSink for SearchSink {
    type Settings = SearchConfig;

    /// The search settings.
    closed spec fn settings(&self) -> SearchConfig {
        self.search.config
    }

    closed spec fn seen(&self) -> Seq<TableView> {
        self.seen@
    }

    /// The machine of `table` fits the platform to the end of its run.
    closed spec fn admits(&self, table: TableView) -> bool {
        step_limit_fits(self.search.config.max_steps as int)
            || fits_platform(outcome(table, self.search.config.max_steps as nat).0)
    }

    /// The count of machines can grow by `count` within `usize`.
    closed spec fn has_room(&self, count: nat) -> bool {
        self.result.total_machines + count <= usize::MAX
    }

    /// The result records exactly the tables seen.
    closed spec fn inv(&self) -> bool {
        self.result@ == recorded_all(empty_result(), self.seen@, self.search.config.max_steps as nat)
    }

    proof fn lemma_room_shrinks(&self, fewer: nat, more: nat) {
    }

    /// Records `table`.
    fn accept(&mut self, table: TransitionTable) {
        proof {
            lemma_recorded_all_counts(empty_result(), self.seen@, self.search.config.max_steps as nat);
        }
        self.search.record(&mut self.result, &table);
        let ghost contents = table@;
        self.seen = Ghost(self.seen@.push(contents));
        proof {
            assert(self.seen@.drop_last() =~= old(self).seen@);
        }
    }
}

/// A search.
pub struct BusyBeaverSearch {
    config: SearchConfig,
}

impl BusyBeaverSearch {
    /// The settings of this search.
    pub closed spec fn config(&self) -> SearchConfig {
        self.config
    }

    /// A search with the given settings.
    pub fn new(config: SearchConfig) -> (search: Self)
        ensures
            search.config() == config,
    {
        Self { config }
    }

    /// Runs every candidate machine and returns the counts and the champions.
    /// Progress lines are not printed here: a caller that wants them drives
    /// the search itself with `record`.
    pub fn run(&self) -> (result: SearchResult)
        requires
            step_limit_fits(self.config().max_steps as int) || forall|i: int|
                0 <= i < self.config().tables().len() ==> fits_platform(
                    outcome(#[trigger] self.config().tables()[i], self.config().max_steps as nat).0,
                ),
            self.config().tables().len() <= usize::MAX,
        ensures
            result@ == recorded_all(empty_result(), self.config().tables(), self.config().max_steps as nat),
    {
        let generator = MachineGenerator::new(self.config.state_count, self.config.symbol_count);
        let mut sink = SearchSink {
            search: BusyBeaverSearch::new(self.config),
            result: SearchResult::new(),
            seen: Ghost(Seq::empty()),
        };
        let started_at = clock_now();
        proof {
            assert(generator.listed() =~= self.config.tables());
            assert forall|s: Seq<Transition>| #[trigger] generator.tables().contains(s)
                implies sink.admits(TableView { symbol_count: generator.symbols(), transitions: s }) by {
                let i = choose|i: int| 0 <= i < generator.tables().len() && generator.tables()[i] == s;
                assert(self.config.tables()[i] == TableView { symbol_count: generator.symbols(), transitions: s });
            }
            assert(recorded_all(empty_result(), Seq::<TableView>::empty(), self.config.max_steps as nat) == empty_result());
            assert(generator.tables().len() == self.config.tables().len());
            assert(sink.has_room(generator.tables().len() + 0));
            assert(sink.inv());
        }
        generator.for_each(&mut sink);
        proof {
            assert(sink.inv());
            assert(sink.seen() =~= self.config.tables());
        }
        let mut result = sink.result;
        result.elapsed = clock_elapsed(&started_at);
        result
    }

    /// Runs the machine of `table`, counts it under how it ended, updates the
    /// champions if it halted, and tells whether a progress line is due.
    pub fn record(&self, result: &mut SearchResult, table: &TransitionTable) -> (progress: bool)
        requires
            step_limit_fits(self.config().max_steps as int)
                || fits_platform(outcome(table@, self.config().max_steps as nat).0),
            old(result).total_machines < usize::MAX,
            old(result).halted_machines < usize::MAX,
            old(result).step_limited_machines < usize::MAX,
            old(result).missing_transition_machines < usize::MAX,
        ensures
            final(result)@ == recorded(old(result)@, table@, self.config().max_steps as nat),
            final(result).elapsed == old(result).elapsed,
            progress == progress_due(self.config(), final(result).total_machines as int),
    {
        result.total_machines = result.total_machines + 1;
        let mut machine = Machine::new(table.duplicate());
        let status = machine.run(self.config.max_steps);
        match status {
            RunStatus::Halted => {
                result.halted_machines = result.halted_machines + 1;
                Self::try_update_champions(result, &machine, table);
            },
            RunStatus::StepLimitReached => {
                result.step_limited_machines = result.step_limited_machines + 1;
            },
            RunStatus::MissingTransition => {
                result.missing_transition_machines = result.missing_transition_machines + 1;
            },
            RunStatus::Running => {},
        }
        self.should_print_progress(result.total_machines)
    }

    /// Whether a progress line is due after `total_machines` machines.
    fn should_print_progress(&self, total_machines: usize) -> (due: bool)
        ensures
            due == progress_due(self.config, total_machines as int),
    {
        self.config.progress_interval > 0 && total_machines % self.config.progress_interval == 0
    }

    /// Updates both champion groups with a machine that halted.
    fn try_update_champions(result: &mut SearchResult, machine: &Machine, table: &TransitionTable)
        requires
            machine.wf(),
        ensures
            final(result)@ == (ResultView {
                sigma: updated_sigma(old(result)@.sigma, machine@.tape.ones(), machine@.steps, table@),
                step: updated_steps(old(result)@.step, machine@.tape.ones(), machine@.steps, table@),
                ..old(result)@
            }),
            final(result).elapsed == old(result).elapsed,
    {
        let ones = machine.ones();
        let steps = machine.steps();
        Self::try_update_sigma_champions(&mut result.sigma_champions, ones, steps, table);
        Self::try_update_step_champions(&mut result.step_champions, ones, steps, table);
    }

    /// Updates the Σ(n) group: the halted machines that leave the most ones.
    fn try_update_sigma_champions(champions: &mut ChampionGroup, ones: usize, steps: u64, table: &TransitionTable)
        ensures
            final(champions)@ == updated_sigma(old(champions)@, ones as nat, steps as nat, table@),
    {
        if champions.is_empty() || ones > champions.best_ones {
            champions.best_ones = ones;
            champions.best_steps = steps;
            champions.tables.clear();
            champions.tables.push(table.duplicate());
            assert(champions@.tables =~= seq![table@]);
            return;
        }
        if ones == champions.best_ones {
            if steps > champions.best_steps {
                champions.best_steps = steps;
            }
            champions.tables.push(table.duplicate());
            assert(champions@.tables =~= old(champions)@.tables.push(table@));
        }
    }

    /// Updates the S(n) group: the halted machines that run the most steps.
    fn try_update_step_champions(champions: &mut ChampionGroup, ones: usize, steps: u64, table: &TransitionTable)
        ensures
            final(champions)@ == updated_steps(old(champions)@, ones as nat, steps as nat, table@),
    {
        if champions.is_empty() || steps > champions.best_steps {
            champions.best_ones = ones;
            champions.best_steps = steps;
            champions.tables.clear();
            champions.tables.push(table.duplicate());
            assert(champions@.tables =~= seq![table@]);
            return;
        }
        if steps == champions.best_steps {
            if ones > champions.best_ones {
                champions.best_ones = ones;
            }
            champions.tables.push(table.duplicate());
            assert(champions@.tables =~= old(champions)@.tables.push(table@));
        }
    }
}

} // verus!
