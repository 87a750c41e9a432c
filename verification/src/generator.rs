//! The candidate generator: it enumerates every transition table of an
//! `n`-state, `m`-symbol machine by backtracking, and hands each complete
//! table to a callback as soon as it is built.

use crate::machine::{TableView, TransitionTable};
use crate::model::{Direction, State, Transition};
use vstd::prelude::*;
use vstd::arithmetic::div_mod::lemma_fundamental_div_mod_converse;
use vstd::arithmetic::power::pow;

verus! {

/// The states a rule may lead to: every normal state, then the halt state.
pub open spec fn next_states_of(state_count: u8) -> Seq<State> {
    Seq::new(
        (state_count + 1) as nat,
        |i: int|
            if i < state_count {
                State::Normal(i as u8)
            } else {
                State::Halt
            },
    )
}

/// The `k`-th candidate rule: candidates are ordered by written symbol, then
/// direction (left before right), then next state.
pub open spec fn candidate_at(state_count: u8, k: int) -> Transition {
    let m = state_count + 1;
    Transition {
        write: (k / (2 * m)) as u8,
        direction: if (k / m) % 2 == 0 {
            Direction::Left
        } else {
            Direction::Right
        },
        next_state: next_states_of(state_count)[k % m],
    }
}

/// Every rule a slot may hold: write any symbol, move either way, go to any
/// state or halt.
pub open spec fn candidates_of(state_count: u8, symbol_count: u8) -> Seq<Transition> {
    Seq::new(
        (symbol_count * 2 * (state_count + 1)) as nat,
        |k: int| candidate_at(state_count, k),
    )
}

/// Every table of `n` slots over `candidates`, in lexicographic order (the
/// first slot varies slowest).
pub open spec fn all_tables(candidates: Seq<Transition>, n: nat) -> Seq<Seq<Transition>>
    decreases n, candidates.len() + 1,
{
    if n == 0 {
        seq![Seq::empty()]
    } else {
        tables_upto(candidates, candidates.len(), n)
    }
}

/// The tables of `n` slots whose first slot is one of the first `k`
/// candidates, in lexicographic order.
pub open spec fn tables_upto(candidates: Seq<Transition>, k: nat, n: nat) -> Seq<Seq<Transition>>
    decreases n, k,
{
    if n == 0 || k == 0 {
        Seq::empty()
    } else {
        tables_upto(candidates, (k - 1) as nat, n) + all_tables(candidates, (n - 1) as nat).map_values(
            |t: Seq<Transition>| seq![candidates[k - 1]] + t,
        )
    }
}

/// Slot index `k` of the candidate list, split into its written symbol,
/// direction and next state.
proof fn lemma_candidate_index(state_count: u8, w: int, d: int, j: int)
    requires
        0 <= w,
        0 <= d < 2,
        0 <= j < state_count + 1,
    ensures
        ({
            let m = state_count + 1;
            let k = w * (2 * m) + d * m + j;
            &&& k / (2 * m) == w
            &&& (k / m) % 2 == d
            &&& k % m == j
        }),
{
    let m = state_count + 1;
    let k = w * (2 * m) + d * m + j;
    assert(w * (2 * m) + d * m + j == (2 * w + d) * m + j) by (nonlinear_arith);
    assert(0 <= d * m + j < 2 * m) by (nonlinear_arith)
        requires
            0 <= d < 2,
            0 <= j < m,
    ;
    lemma_fundamental_div_mod_converse(k, m, 2 * w + d, j);
    lemma_fundamental_div_mod_converse(k, 2 * m, w, d * m + j);
    lemma_fundamental_div_mod_converse(2 * w + d, 2, w, d);
}

/// The number of tables whose first slot is one of the first `k` candidates.
pub(crate) proof fn lemma_tables_upto_len(candidates: Seq<Transition>, k: nat, n: nat)
    requires
        n > 0,
    ensures
        tables_upto(candidates, k, n).len() == k * pow(candidates.len() as int, (n - 1) as nat),
    decreases n, k,
{
    let p = pow(candidates.len() as int, (n - 1) as nat);
    if k > 0 {
        lemma_tables_upto_len(candidates, (k - 1) as nat, n);
        lemma_all_tables_len(candidates, (n - 1) as nat);
        assert((k - 1) * p + p == k * p) by (nonlinear_arith);
        let rest = all_tables(candidates, (n - 1) as nat);
        assert(rest.map_values(|t: Seq<Transition>| seq![candidates[k - 1]] + t).len() == rest.len());
    } else {
        assert(k * p == 0) by (nonlinear_arith)
            requires
                k == 0,
        ;
    }
}

/// There are `candidates.len()` to the power `n` tables of `n` slots.
pub(crate) proof fn lemma_all_tables_len(candidates: Seq<Transition>, n: nat)
    ensures
        all_tables(candidates, n).len() == pow(candidates.len() as int, n),
    decreases n, candidates.len() + 1,
{
    reveal(pow);
    if n > 0 {
        lemma_tables_upto_len(candidates, candidates.len(), n);
        let l = candidates.len() as int;
        let p = pow(l, (n - 1) as nat);
        assert(l * p == pow(l, n));
    }
}

/// Every table listed has `n` slots, each holding one of the candidates.
pub(crate) proof fn lemma_all_tables_shape(candidates: Seq<Transition>, n: nat, i: int)
    requires
        0 <= i < all_tables(candidates, n).len(),
    ensures
        all_tables(candidates, n)[i].len() == n,
        forall|j: int| 0 <= j < n ==> candidates.contains(#[trigger] all_tables(candidates, n)[i][j]),
    decreases n, candidates.len() + 1,
{
    if n > 0 {
        lemma_tables_upto_shape(candidates, candidates.len(), n, i);
    }
}

/// Every table listed among the first `k` blocks has `n` slots, each holding
/// one of the candidates.
proof fn lemma_tables_upto_shape(candidates: Seq<Transition>, k: nat, n: nat, i: int)
    requires
        n > 0,
        k <= candidates.len(),
        0 <= i < tables_upto(candidates, k, n).len(),
    ensures
        tables_upto(candidates, k, n)[i].len() == n,
        forall|j: int| 0 <= j < n ==> candidates.contains(#[trigger] tables_upto(candidates, k, n)[i][j]),
    decreases n, k,
{
    let front = tables_upto(candidates, (k - 1) as nat, n);
    let rest = all_tables(candidates, (n - 1) as nat);
    if i < front.len() {
        lemma_tables_upto_shape(candidates, (k - 1) as nat, n, i);
    } else {
        let r = i - front.len();
        lemma_all_tables_shape(candidates, (n - 1) as nat, r);
        let t = tables_upto(candidates, k, n)[i];
        assert(t == seq![candidates[k - 1]] + rest[r]);
        assert forall|j: int| 0 <= j < n implies candidates.contains(#[trigger] t[j]) by {
            if j == 0 {
                assert(candidates[k - 1] == t[j]);
            } else {
                assert(t[j] == rest[r][j - 1]);
            }
        }
    }
}

/// A table whose first slot is candidate `first` (one of the first `k`) and
/// whose other slots form a table that is listed, is listed too.
proof fn lemma_tables_upto_contains(candidates: Seq<Transition>, k: nat, n: nat, first: int, t: Seq<Transition>)
    requires
        n > 0,
        0 <= first < k <= candidates.len(),
        t.len() == n,
        t[0] == candidates[first],
        all_tables(candidates, (n - 1) as nat).contains(t.drop_first()),
    ensures
        tables_upto(candidates, k, n).contains(t),
    decreases k,
{
    let front = tables_upto(candidates, (k - 1) as nat, n);
    let rest = all_tables(candidates, (n - 1) as nat);
    let block = rest.map_values(|u: Seq<Transition>| seq![candidates[k - 1]] + u);
    assert(tables_upto(candidates, k, n) == front + block);
    if first == k - 1 {
        let r = choose|r: int| 0 <= r < rest.len() && rest[r] == t.drop_first();
        assert(block[r] =~= t);
        assert((front + block)[front.len() + r] == t);
    } else {
        lemma_tables_upto_contains(candidates, (k - 1) as nat, n, first, t);
        let r = choose|r: int| 0 <= r < front.len() && front[r] == t;
        assert((front + block)[r] == t);
    }
}

/// Every table of `n` slots that holds only candidates is listed.
pub(crate) proof fn lemma_all_tables_complete(candidates: Seq<Transition>, n: nat, t: Seq<Transition>)
    requires
        t.len() == n,
        forall|j: int| 0 <= j < n ==> candidates.contains(#[trigger] t[j]),
    ensures
        all_tables(candidates, n).contains(t),
    decreases n,
{
    if n == 0 {
        assert(t =~= Seq::<Transition>::empty());
        assert(all_tables(candidates, n)[0] == t);
    } else {
        let tail = t.drop_first();
        assert forall|j: int| 0 <= j < n - 1 implies candidates.contains(#[trigger] tail[j]) by {
            assert(tail[j] == t[j + 1]);
        }
        lemma_all_tables_complete(candidates, (n - 1) as nat, tail);
        assert(candidates.contains(t[0]));
        let first = choose|f: int| 0 <= f < candidates.len() && candidates[f] == t[0];
        lemma_tables_upto_contains(candidates, candidates.len(), n, first, t);
    }
}

/// A rule may lead to every normal state below the state count and to the
/// halt state, and to nothing else, each listed once.
pub proof fn law_next_states(state_count: u8, s: State)
    ensures
        next_states_of(state_count).contains(s) <==> (s == State::Halt || (s matches State::Normal(id) && id < state_count)),
        next_states_of(state_count).len() == state_count + 1,
        next_states_of(state_count).no_duplicates(),
{
    let states = next_states_of(state_count);
    match s {
        State::Halt => {
            assert(states[state_count as int] == State::Halt);
        },
        State::Normal(id) => {
            if id < state_count {
                assert(states[id as int] == s);
            }
        },
    }
}

/// The rules a generator offers for one slot: exactly the rules that write
/// one of its symbols, move either way and lead to one of its states or halt.
pub proof fn law_candidates(state_count: u8, symbol_count: u8, t: Transition)
    ensures
        candidates_of(state_count, symbol_count).len() == symbol_count * 2 * (state_count + 1),
        candidates_of(state_count, symbol_count).contains(t) <==> {
            &&& t.write < symbol_count
            &&& next_states_of(state_count).contains(t.next_state)
        },
        candidates_of(state_count, symbol_count).contains(t) <==> {
            &&& t.write < symbol_count
            &&& (t.next_state == State::Halt || (t.next_state matches State::Normal(id) && id < state_count))
        },
        candidates_of(state_count, symbol_count).no_duplicates(),
{
    law_next_states(state_count, t.next_state);
    lemma_candidates_distinct(state_count, symbol_count);
    let cands = candidates_of(state_count, symbol_count);
    let m = state_count + 1;
    let states = next_states_of(state_count);
    if t.write < symbol_count && states.contains(t.next_state) {
        let j = choose|j: int| 0 <= j < states.len() && states[j] == t.next_state;
        let d: int = if t.direction == Direction::Left { 0 } else { 1 };
        lemma_candidate_index(state_count, t.write as int, d, j);
        let k = t.write * (2 * m) + d * m + j;
        assert(0 <= k < symbol_count * 2 * m) by (nonlinear_arith)
            requires
                k == t.write * (2 * m) + d * m + j,
                0 <= t.write < symbol_count,
                0 <= d < 2,
                0 <= j < m,
        ;
        assert(cands[k] == t);
    }
    if cands.contains(t) {
        let k = choose|k: int| 0 <= k < cands.len() && cands[k] == t;
        vstd::arithmetic::div_mod::lemma_fundamental_div_mod(k, 2 * m);
        assert(k / (2 * m) < symbol_count) by (nonlinear_arith)
            requires
                0 <= k < symbol_count * 2 * m,
                m > 0,
                k == (2 * m) * (k / (2 * m)) + k % (2 * m),
                0 <= k % (2 * m),
        ;
        assert(0 <= k / (2 * m)) by (nonlinear_arith)
            requires
                0 <= k,
                m > 0,
        ;
        assert(states[k % m] == t.next_state);
    }
}

/// A generator lists `(symbol_count * 2 * (state_count + 1))` to the power
/// `state_count * symbol_count` tables; each has one rule per slot, taken
/// from the candidates; and every such table is listed.
pub proof fn law_generator_enumerates_all(generator: MachineGenerator, t: Seq<Transition>)
    ensures
        generator.tables().len() == pow(
            generator.symbols() * 2 * (generator.states() + 1),
            generator.slots(),
        ),
        forall|i: int|
            0 <= i < generator.tables().len() ==> (#[trigger] generator.tables()[i]).len()
                == generator.slots(),
        forall|i: int, j: int|
            0 <= i < generator.tables().len() && 0 <= j < generator.slots() ==> candidates_of(
                generator.states(),
                generator.symbols(),
            ).contains(#[trigger] generator.tables()[i][j]),
        t.len() == generator.slots() && (forall|j: int|
            0 <= j < t.len() ==> candidates_of(generator.states(), generator.symbols()).contains(
                #[trigger] t[j],
            )) ==> generator.tables().contains(t),
{
    let cands = candidates_of(generator.states(), generator.symbols());
    lemma_all_tables_len(cands, generator.slots());
    assert forall|i: int| 0 <= i < generator.tables().len() implies (#[trigger] generator.tables()[i]).len() == generator.slots() by {
        lemma_all_tables_shape(cands, generator.slots(), i);
    }
    assert forall|i: int, j: int|
        0 <= i < generator.tables().len() && 0 <= j < generator.slots() implies cands.contains(
            #[trigger] generator.tables()[i][j],
        ) by {
        lemma_all_tables_shape(cands, generator.slots(), i);
    }
    if t.len() == generator.slots() && (forall|j: int| 0 <= j < t.len() ==> cands.contains(#[trigger] t[j])) {
        lemma_all_tables_complete(cands, generator.slots(), t);
    }
}

/// Candidate `k` is determined by its written symbol, direction and next
/// state, which are the digits of `k`.
proof fn lemma_candidate_digits(state_count: u8, k: int)
    requires
        0 <= k,
    ensures
        ({
            let m = state_count + 1;
            let w = k / (2 * m);
            let d = (k % (2 * m)) / m;
            let j = (k % (2 * m)) % m;
            &&& 0 <= w && 0 <= d < 2 && 0 <= j < m
            &&& k == w * (2 * m) + d * m + j
            &&& candidate_at(state_count, k).write == w as u8
            &&& candidate_at(state_count, k).direction == if d == 0 { Direction::Left } else { Direction::Right }
            &&& candidate_at(state_count, k).next_state == next_states_of(state_count)[j]
        }),
{
    let m = state_count + 1;
    let w = k / (2 * m);
    let r = k % (2 * m);
    let d = r / m;
    let j = r % m;
    vstd::arithmetic::div_mod::lemma_fundamental_div_mod(k, 2 * m);
    vstd::arithmetic::div_mod::lemma_fundamental_div_mod(r, m);
    assert(0 <= r < 2 * m);
    assert(0 <= w) by (nonlinear_arith)
        requires
            0 <= k,
            m > 0,
            w == k / (2 * m),
    ;
    assert(0 <= d < 2) by (nonlinear_arith)
        requires
            0 <= r < 2 * m,
            m > 0,
            r == m * d + j,
            0 <= j < m,
    ;
    assert(k == w * (2 * m) + d * m + j) by (nonlinear_arith)
        requires
            k == (2 * m) * w + r,
            r == m * d + j,
    ;
    lemma_candidate_index(state_count, w, d, j);
}

/// Different candidate slots hold different rules.
pub(crate) proof fn lemma_candidates_distinct(state_count: u8, symbol_count: u8)
    ensures
        candidates_of(state_count, symbol_count).no_duplicates(),
{
    let cands = candidates_of(state_count, symbol_count);
    let m = state_count + 1;
    let states = next_states_of(state_count);
    assert forall|a: int, b: int| 0 <= a < cands.len() && 0 <= b < cands.len() && a != b implies cands[a] != cands[b] by {
        lemma_candidate_digits(state_count, a);
        lemma_candidate_digits(state_count, b);
        let wa = a / (2 * m);
        let wb = b / (2 * m);
        vstd::arithmetic::div_mod::lemma_fundamental_div_mod(a, 2 * m);
        vstd::arithmetic::div_mod::lemma_fundamental_div_mod(b, 2 * m);
        assert(wa < 256) by (nonlinear_arith)
            requires
                0 <= a < symbol_count * 2 * m,
                symbol_count <= 255,
                m > 0,
                a == (2 * m) * wa + a % (2 * m),
                0 <= a % (2 * m),
        ;
        assert(wb < 256) by (nonlinear_arith)
            requires
                0 <= b < symbol_count * 2 * m,
                symbol_count <= 255,
                m > 0,
                b == (2 * m) * wb + b % (2 * m),
                0 <= b % (2 * m),
        ;
        let ja = (a % (2 * m)) % m;
        let jb = (b % (2 * m)) % m;
        if cands[a] == cands[b] {
            if ja != jb {
                if ja < state_count && jb < state_count {
                    assert(states[ja] == State::Normal(ja as u8));
                    assert(states[jb] == State::Normal(jb as u8));
                } else if ja < state_count {
                    assert(states[ja] == State::Normal(ja as u8));
                } else {
                    assert(states[jb] == State::Normal(jb as u8));
                }
            }
        }
    }
}

/// The first slot of a table among the first `k` blocks is one of the first
/// `k` candidates.
proof fn lemma_tables_upto_first(candidates: Seq<Transition>, k: nat, n: nat, i: int)
    requires
        n > 0,
        k <= candidates.len(),
        0 <= i < tables_upto(candidates, k, n).len(),
    ensures
        exists|f: int| 0 <= f < k && tables_upto(candidates, k, n)[i][0] == #[trigger] candidates[f],
    decreases k,
{
    let front = tables_upto(candidates, (k - 1) as nat, n);
    if i < front.len() {
        lemma_tables_upto_first(candidates, (k - 1) as nat, n, i);
        let f = choose|f: int| 0 <= f < k - 1 && front[i][0] == #[trigger] candidates[f];
        assert(tables_upto(candidates, k, n)[i] == front[i]);
    } else {
        let rest = all_tables(candidates, (n - 1) as nat);
        let r = i - front.len();
        assert(tables_upto(candidates, k, n)[i] == seq![candidates[k - 1]] + rest[r]);
        assert(tables_upto(candidates, k, n)[i][0] == candidates[k - 1]);
    }
}

/// With distinct candidates, the tables among the first `k` blocks are distinct.
proof fn lemma_tables_upto_distinct(candidates: Seq<Transition>, k: nat, n: nat)
    requires
        n > 0,
        k <= candidates.len(),
        candidates.no_duplicates(),
    ensures
        tables_upto(candidates, k, n).no_duplicates(),
    decreases n, k,
{
    if k > 0 {
        let front = tables_upto(candidates, (k - 1) as nat, n);
        let rest = all_tables(candidates, (n - 1) as nat);
        let all = tables_upto(candidates, k, n);
        lemma_tables_upto_distinct(candidates, (k - 1) as nat, n);
        lemma_all_tables_distinct(candidates, (n - 1) as nat);
        assert forall|a: int, b: int| 0 <= a < all.len() && 0 <= b < all.len() && a != b implies all[a] != all[b] by {
            if a < front.len() && b < front.len() {
                assert(all[a] == front[a] && all[b] == front[b]);
            } else if a >= front.len() && b >= front.len() {
                let ra = a - front.len();
                let rb = b - front.len();
                assert(all[a] == seq![candidates[k - 1]] + rest[ra]);
                assert(all[b] == seq![candidates[k - 1]] + rest[rb]);
                if all[a] == all[b] {
                    assert(all[a].drop_first() =~= rest[ra]);
                    assert(all[b].drop_first() =~= rest[rb]);
                }
            } else {
                let (x, y) = if a < front.len() { (a, b) } else { (b, a) };
                lemma_tables_upto_first(candidates, (k - 1) as nat, n, x);
                let f = choose|f: int| 0 <= f < k - 1 && front[x][0] == #[trigger] candidates[f];
                assert(all[x] == front[x]);
                let ry = y - front.len();
                assert(all[y] == seq![candidates[k - 1]] + rest[ry]);
                assert(all[y][0] == candidates[k - 1]);
                assert(candidates[f] != candidates[k - 1]);
            }
        }
    }
}

/// With distinct candidates, every table is listed once only.
pub(crate) proof fn lemma_all_tables_distinct(candidates: Seq<Transition>, n: nat)
    requires
        candidates.no_duplicates(),
    ensures
        all_tables(candidates, n).no_duplicates(),
    decreases n, candidates.len() + 1,
{
    if n > 0 {
        lemma_tables_upto_distinct(candidates, candidates.len(), n);
    }
}

/// Where a next state stands in the order A, B, C, ..., H.
pub open spec fn state_rank(state: State, state_count: u8) -> int {
    match state {
        State::Normal(id) => id as int,
        State::Halt => state_count as int,
    }
}

/// Whether rule `a` comes before rule `b`: by written symbol, then left
/// before right, then by next state in the order A, B, ..., H.
pub open spec fn rule_before(a: Transition, b: Transition, state_count: u8) -> bool {
    ||| a.write < b.write
    ||| a.write == b.write && a.direction == Direction::Left && b.direction == Direction::Right
    ||| a.write == b.write && a.direction == b.direction
        && state_rank(a.next_state, state_count) < state_rank(b.next_state, state_count)
}

/// Whether table `a` comes before table `b`: they agree up to some slot,
/// and there `a`'s rule comes first.
pub open spec fn table_before(a: Seq<Transition>, b: Seq<Transition>, state_count: u8) -> bool {
    exists|k: int|
        0 <= k < a.len() && k < b.len() && a.take(k) == b.take(k) && #[trigger] rule_before(a[k], b[k], state_count)
}

/// Mixed-radix digits compare as their numbers do.
proof fn lemma_digits_order(m: int, wx: int, dx: int, jx: int, wy: int, dy: int, jy: int)
    requires
        m > 0,
        0 <= wx && 0 <= dx < 2 && 0 <= jx < m,
        0 <= wy && 0 <= dy < 2 && 0 <= jy < m,
        wx * (2 * m) + dx * m + jx < wy * (2 * m) + dy * m + jy,
    ensures
        wx < wy || (wx == wy && (dx < dy || (dx == dy && jx < jy))),
{
    if wx > wy {
        assert(wy * (2 * m) + dy * m + jy < wx * (2 * m) + dx * m + jx) by (nonlinear_arith)
            requires
                wx >= wy + 1,
                m > 0,
                0 <= dx,
                0 <= jx,
                0 <= dy < 2,
                0 <= jy < m,
        ;
    } else if wx == wy {
        if dx > dy {
            assert(dy * m + jy < dx * m + jx) by (nonlinear_arith)
                requires
                    dx >= dy + 1,
                    0 <= jx,
                    0 <= jy < m,
            ;
        } else if dx == dy {
        }
    }
}

/// The candidates for a slot come in the order: by written symbol, then
/// left before right, then by next state A, B, ..., H.
pub proof fn law_candidates_ordered(state_count: u8, symbol_count: u8, x: int, y: int)
    requires
        0 <= x < y < candidates_of(state_count, symbol_count).len(),
    ensures
        rule_before(
            candidates_of(state_count, symbol_count)[x],
            candidates_of(state_count, symbol_count)[y],
            state_count,
        ),
{
    let cands = candidates_of(state_count, symbol_count);
    let m = state_count + 1;
    let states = next_states_of(state_count);
    lemma_candidate_digits(state_count, x);
    lemma_candidate_digits(state_count, y);
    let wx = x / (2 * m);
    let wy = y / (2 * m);
    let jx = (x % (2 * m)) % m;
    let jy = (y % (2 * m)) % m;
    vstd::arithmetic::div_mod::lemma_fundamental_div_mod(x, 2 * m);
    vstd::arithmetic::div_mod::lemma_fundamental_div_mod(y, 2 * m);
    assert(wy < 256) by (nonlinear_arith)
        requires
            0 <= y < symbol_count * 2 * m,
            symbol_count <= 255,
            m > 0,
            y == (2 * m) * wy + y % (2 * m),
            0 <= y % (2 * m),
    ;
    lemma_digits_order(m, wx, (x % (2 * m)) / m, jx, wy, (y % (2 * m)) / m, jy);
    assert(state_rank(states[jx], state_count) == jx);
    assert(state_rank(states[jy], state_count) == jy);
}

/// With candidates in rule order, every table among the first `k` blocks
/// comes before every later one.
proof fn lemma_tables_upto_ordered(candidates: Seq<Transition>, state_count: u8, k: nat, n: nat, i: int, j: int)
    requires
        n > 0,
        k <= candidates.len(),
        forall|x: int, y: int| 0 <= x < y < candidates.len() ==> rule_before(#[trigger] candidates[x], #[trigger] candidates[y], state_count),
        0 <= i < j < tables_upto(candidates, k, n).len(),
    ensures
        table_before(tables_upto(candidates, k, n)[i], tables_upto(candidates, k, n)[j], state_count),
    decreases n, k,
{
    let front = tables_upto(candidates, (k - 1) as nat, n);
    let rest = all_tables(candidates, (n - 1) as nat);
    let all = tables_upto(candidates, k, n);
    if j < front.len() {
        lemma_tables_upto_ordered(candidates, state_count, (k - 1) as nat, n, i, j);
        assert(all[i] == front[i] && all[j] == front[j]);
    } else if i >= front.len() {
        let ri = i - front.len();
        let rj = j - front.len();
        lemma_all_tables_ordered(candidates, state_count, (n - 1) as nat, ri, rj);
        let a = rest[ri];
        let b = rest[rj];
        let w = choose|w: int| 0 <= w < a.len() && w < b.len() && a.take(w) == b.take(w) && #[trigger] rule_before(a[w], b[w], state_count);
        let c = candidates[k - 1];
        assert(all[i] == seq![c] + a);
        assert(all[j] == seq![c] + b);
        assert(all[i].take(w + 1) =~= seq![c] + a.take(w));
        assert(all[j].take(w + 1) =~= seq![c] + b.take(w));
        assert(all[i][w + 1] == a[w]);
        assert(all[j][w + 1] == b[w]);
        assert(rule_before(all[i][w + 1], all[j][w + 1], state_count));
    } else {
        lemma_tables_upto_first(candidates, (k - 1) as nat, n, i);
        let f = choose|f: int| 0 <= f < k - 1 && front[i][0] == #[trigger] candidates[f];
        assert(all[i] == front[i]);
        lemma_tables_upto_shape(candidates, (k - 1) as nat, n, i);
        let rj = j - front.len();
        lemma_all_tables_shape(candidates, (n - 1) as nat, rj);
        assert(all[j] == seq![candidates[k - 1]] + rest[rj]);
        assert(all[j][0] == candidates[k - 1]);
        assert(rule_before(candidates[f], candidates[k - 1], state_count));
        assert(all[i].take(0) =~= all[j].take(0));
        assert(rule_before(all[i][0], all[j][0], state_count));
    }
}

/// With candidates in rule order, every table comes before every later one.
proof fn lemma_all_tables_ordered(candidates: Seq<Transition>, state_count: u8, n: nat, i: int, j: int)
    requires
        forall|x: int, y: int| 0 <= x < y < candidates.len() ==> rule_before(#[trigger] candidates[x], #[trigger] candidates[y], state_count),
        0 <= i < j < all_tables(candidates, n).len(),
    ensures
        table_before(all_tables(candidates, n)[i], all_tables(candidates, n)[j], state_count),
    decreases n, candidates.len() + 1,
{
    if n > 0 {
        lemma_tables_upto_ordered(candidates, state_count, candidates.len(), n, i, j);
    }
}

/// A generator lists its tables in lexicographic order: a table comes
/// before every later one, the first slot varying slowest, each slot's rules
/// taken by written symbol, then left before right, then next state A..H.
pub proof fn law_generator_order(generator: MachineGenerator, i: int, j: int)
    requires
        0 <= i < j < generator.tables().len(),
    ensures
        table_before(generator.tables()[i], generator.tables()[j], generator.states()),
{
    let cands = candidates_of(generator.states(), generator.symbols());
    assert forall|x: int, y: int| 0 <= x < y < cands.len() implies rule_before(#[trigger] cands[x], #[trigger] cands[y], generator.states()) by {
        law_candidates_ordered(generator.states(), generator.symbols(), x, y);
    }
    lemma_all_tables_ordered(cands, generator.states(), generator.slots(), i, j);
}

/// A generator lists no table twice.
pub proof fn law_generator_lists_each_table_once(generator: MachineGenerator)
    ensures
        generator.tables().no_duplicates(),
{
    lemma_candidates_distinct(generator.states(), generator.symbols());
    lemma_all_tables_distinct(candidates_of(generator.states(), generator.symbols()), generator.slots());
}

/// The tables that extend `prefix` with `n` more slots of candidates.
pub open spec fn completions(candidates: Seq<Transition>, prefix: Seq<Transition>, n: nat) -> Seq<Seq<Transition>> {
    all_tables(candidates, n).map_values(|t: Seq<Transition>| prefix + t)
}

/// The tables that extend `prefix` with `n` more slots of candidates, as
/// tables over `symbol_count` symbols.
pub open spec fn completion_views(candidates: Seq<Transition>, prefix: Seq<Transition>, n: nat, symbol_count: u8) -> Seq<TableView> {
    all_tables(candidates, n).map_values(|t: Seq<Transition>| TableView { symbol_count, transitions: prefix + t })
}

/// Extending `prefix` by a candidate, then completing it, completes `prefix`.
proof fn lemma_completions_extend(candidates: Seq<Transition>, prefix: Seq<Transition>, n: nat, k: int, s: Seq<Transition>)
    requires
        n > 0,
        0 <= k < candidates.len(),
        completions(candidates, prefix.push(candidates[k]), (n - 1) as nat).contains(s),
    ensures
        completions(candidates, prefix, n).contains(s),
{
    let inner = all_tables(candidates, (n - 1) as nat);
    let extended = completions(candidates, prefix.push(candidates[k]), (n - 1) as nat);
    let i = choose|i: int| 0 <= i < extended.len() && #[trigger] extended[i] == s;
    let t = seq![candidates[k]] + inner[i];
    assert(inner.contains(inner[i]));
    assert(t.drop_first() =~= inner[i]);
    lemma_all_tables_shape(candidates, (n - 1) as nat, i);
    lemma_tables_upto_contains(candidates, candidates.len(), n, k, t);
    let outer = all_tables(candidates, n);
    let j = choose|j: int| 0 <= j < outer.len() && outer[j] == t;
    assert(prefix + t =~= prefix.push(candidates[k]) + inner[i]);
    assert(completions(candidates, prefix, n)[j] == s);
}

/// A receiver of the tables a generator lists. `seen` is every table it has
/// accepted so far, in order.
pub trait TableSink: Sized {
    /// What the sink was set up with, which accepting tables never changes.
    type Settings;

    /// The sink's settings.
    spec fn settings(&self) -> Self::Settings;

    /// The tables accepted so far, in the order they came.
    spec fn seen(&self) -> Seq<TableView>;

    /// Whether the sink can take `table`; accepting a table never withdraws
    /// this from another.
    spec fn admits(&self, table: TableView) -> bool;

    /// Whether the sink can take `count` more tables.
    spec fn has_room(&self, count: nat) -> bool;

    /// What the sink keeps true of itself from one table to the next.
    spec fn inv(&self) -> bool;

    /// Room for more tables is room for fewer.
    proof fn lemma_room_shrinks(&self, fewer: nat, more: nat)
        requires
            fewer <= more,
            self.has_room(more),
        ensures
            self.has_room(fewer),
    ;

    /// Takes one table.
    fn accept(&mut self, table: TransitionTable)
        requires
            old(self).inv(),
            old(self).admits(table@),
            old(self).has_room(1),
        ensures
            final(self).inv(),
            final(self).settings() == old(self).settings(),
            final(self).seen() == old(self).seen().push(table@),
            forall|t: TableView| old(self).admits(t) ==> #[trigger] final(self).admits(t),
            forall|n: nat| old(self).has_room(n + 1) ==> #[trigger] final(self).has_room(n),
    ;
}

/// A sink that hands every table to a closure.
pub struct CallbackSink<F> {
    callback: F,
    seen: Ghost<Seq<TableView>>,
}

impl<F: FnMut(TransitionTable)> CallbackSink<F> {
    /// A sink that passes each table it accepts to `callback`.
    pub fn new(callback: F) -> (sink: Self)
        ensures
            sink.settings() == callback,
            sink.seen() == Seq::<TableView>::empty(),
            sink.inv(),
    {
        Self { callback, seen: Ghost(Seq::empty()) }
    }

    /// What a closure sink admits, how much room it has and what it keeps:
    /// it admits the tables its closure accepts, has room for any number of
    /// them, and every table it has accepted has gone to the closure.
    pub proof fn lemma_sink_terms(&self)
        ensures
            forall|table: TableView|
                #[trigger] self.admits(table) == (forall|t: TransitionTable|
                    t@ == table ==> #[trigger] self.settings().requires((t,))),
            forall|count: nat| #[trigger] self.has_room(count),
            self.inv() == (forall|i: int|
                0 <= i < self.seen().len() ==> passed_to(self.settings(), #[trigger] self.seen()[i])),
    {
    }
}

/// Whether `callback` has been called with a table whose contents are
/// `table`: its postcondition holds of such an argument.
pub open spec fn passed_to<F: FnMut(TransitionTable)>(callback: F, table: TableView) -> bool {
    exists|t: TransitionTable| t@ == table && #[trigger] call_ensures(callback, (t,), ())
}

impl<F: FnMut(TransitionTable)> TableSink for CallbackSink<F> {
    type Settings = F;

    /// The closure the tables go to.
    closed spec fn settings(&self) -> F {
        self.callback
    }

    closed spec fn seen(&self) -> Seq<TableView> {
        self.seen@
    }

    /// The closure accepts every table with these contents.
    closed spec fn admits(&self, table: TableView) -> bool {
        forall|t: TransitionTable| t@ == table ==> #[trigger] self.settings().requires((t,))
    }

    /// A closure takes any number of tables.
    closed spec fn has_room(&self, count: nat) -> bool {
        true
    }

    /// Every table accepted so far has gone to the closure.
    closed spec fn inv(&self) -> bool {
        forall|i: int| 0 <= i < self.seen().len() ==> passed_to(self.settings(), #[trigger] self.seen()[i])
    }

    proof fn lemma_room_shrinks(&self, fewer: nat, more: nat) {
    }

    /// Calls the closure on `table`, once.
    fn accept(&mut self, table: TransitionTable)
        ensures
            call_ensures(old(self).settings(), (table,), ()),
    {
        broadcast use vstd::function::group_function_axioms;

        let ghost contents = table@;
        let ghost given = table;
        assert(self.settings().requires((table,)));
        (self.callback)(table);
        self.seen = Ghost(self.seen@.push(contents));
        proof {
            assert(call_ensures(self.callback, (given,), ()));
            assert forall|i: int| 0 <= i < self.seen().len() implies passed_to(self.settings(), #[trigger] self.seen()[i]) by {
                if i < old(self).seen().len() {
                    assert(self.seen()[i] == old(self).seen()[i]);
                } else {
                    assert(self.seen()[i] == contents);
                }
            }
        }
    }
}

/// A generator of candidate transition tables.
#[derive(Clone, Debug)]
pub struct MachineGenerator {
    state_count: u8,
    symbol_count: u8,
}

impl MachineGenerator {
    /// The number of normal states of the machines generated.
    pub closed spec fn states(&self) -> u8 {
        self.state_count
    }

    /// The number of symbols of the machines generated.
    pub closed spec fn symbols(&self) -> u8 {
        self.symbol_count
    }

    /// The number of rule slots of each table: one per (state, symbol).
    pub open spec fn slots(&self) -> nat {
        (self.states() * self.symbols()) as nat
    }

    /// Every table this generator produces, in the order it produces them.
    pub open spec fn tables(&self) -> Seq<Seq<Transition>> {
        all_tables(candidates_of(self.states(), self.symbols()), self.slots())
    }

    /// A generator for machines with `state_count` normal states (3 for
    /// BB(3)) and `symbol_count` symbols (2 for the classic problem).
    pub fn new(state_count: u8, symbol_count: u8) -> (generator: Self)
        ensures
            generator.states() == state_count,
            generator.symbols() == symbol_count,
    {
        Self { state_count, symbol_count }
    }

    /// Every table, as a table over this generator's symbols, in the order
    /// of `tables()`.
    pub open spec fn listed(&self) -> Seq<TableView> {
        self.tables().map_values(|t: Seq<Transition>| TableView { symbol_count: self.symbols(), transitions: t })
    }

    /// Hands every complete table to `sink`, once each, in the order of
    /// `tables()`.
    pub fn for_each<V: TableSink>(&self, sink: &mut V)
        requires
            old(sink).inv(),
            forall|s: Seq<Transition>|
                #[trigger] self.tables().contains(s)
                    ==> old(sink).admits(TableView { symbol_count: self.symbols(), transitions: s }),
            old(sink).has_room(self.tables().len()),
        ensures
            final(sink).inv(),
            final(sink).settings() == old(sink).settings(),
            final(sink).seen() == old(sink).seen() + self.listed(),
            forall|t: TableView| old(sink).admits(t) ==> #[trigger] final(sink).admits(t),
            forall|n: nat| old(sink).has_room(self.tables().len() + n) ==> #[trigger] final(sink).has_room(n),
    {
        let slot_count = self.rule_slot_count();
        let candidates = self.generate_transition_candidates();
        let mut current: Vec<Transition> = Vec::with_capacity(slot_count);
        let ghost initial = current@;
        proof {
            let all = all_tables(candidates@, slot_count as nat);
            assert forall|s: Seq<Transition>| #[trigger] completions(candidates@, initial, (slot_count - 0usize) as nat).contains(s)
                implies old(sink).admits(TableView { symbol_count: self.symbols(), transitions: s }) by {
                let listed = completions(candidates@, initial, slot_count as nat);
                let i = choose|i: int| 0 <= i < listed.len() && #[trigger] listed[i] == s;
                assert(initial + all[i] =~= all[i]);
                assert(self.tables()[i] == s);
                assert(self.tables().contains(s));
            }
            assert(completions(candidates@, initial, slot_count as nat).len() == all.len());
        }
        self.backtrack_for_each(0, slot_count, candidates.as_slice(), &mut current, sink);
        proof {
            let all = all_tables(candidates@, slot_count as nat);
            assert forall|i: int| 0 <= i < all.len() implies initial + all[i] == all[i] by {
                assert(initial + all[i] =~= all[i]);
            }
            assert(completion_views(candidates@, initial, slot_count as nat, self.symbols()) =~= self.listed());
        }
    }

    /// The number of rule slots of each table.
    pub(crate) fn rule_slot_count(&self) -> (count: usize)
        ensures
            count == self.slots(),
    {
        let states = self.state_count;
        let symbols = self.symbol_count;
        assert(states * symbols <= 255 * 255) by (nonlinear_arith)
            requires
                states <= 255,
                symbols <= 255,
        ;
        states as usize * symbols as usize
    }

    /// Every rule a single slot may hold. For BB(3): write 0 or 1, move left
    /// or right, go to A, B, C or H.
    pub(crate) fn generate_transition_candidates(&self) -> (candidates: Vec<Transition>)
        ensures
            candidates@ == candidates_of(self.states(), self.symbols()),
    {
        let mut candidates: Vec<Transition> = Vec::new();
        let next_states = self.generate_next_states();
        let directions = [Direction::Left, Direction::Right];
        let ghost m = self.state_count + 1;
        let mut write: u8 = 0;
        while write < self.symbol_count
            invariant
                m == self.state_count + 1,
                next_states@ == next_states_of(self.state_count),
                directions@ == seq![Direction::Left, Direction::Right],
                write <= self.symbol_count,
                candidates@.len() == write * (2 * m),
                forall|k: int| 0 <= k < candidates@.len() ==> #[trigger] candidates@[k] == candidate_at(self.state_count, k),
            decreases self.symbol_count - write,
        {
            let mut d: usize = 0;
            while d < 2
                invariant
                    m == self.state_count + 1,
                    next_states@ == next_states_of(self.state_count),
                    directions@ == seq![Direction::Left, Direction::Right],
                    write < self.symbol_count,
                    d <= 2,
                    candidates@.len() == write * (2 * m) + d * m,
                    forall|k: int| 0 <= k < candidates@.len() ==> #[trigger] candidates@[k] == candidate_at(self.state_count, k),
                decreases 2 - d,
            {
                let direction = directions[d];
                let mut j: usize = 0;
                while j < next_states.len()
                    invariant
                        m == self.state_count + 1,
                        next_states@ == next_states_of(self.state_count),
                        directions@ == seq![Direction::Left, Direction::Right],
                        write < self.symbol_count,
                        d < 2,
                        direction == directions@[d as int],
                        j <= m,
                        candidates@.len() == write * (2 * m) + d * m + j,
                        forall|k: int| 0 <= k < candidates@.len() ==> #[trigger] candidates@[k] == candidate_at(self.state_count, k),
                    decreases m - j,
                {
                    let next_state = next_states[j];
                    proof {
                        lemma_candidate_index(self.state_count, write as int, d as int, j as int);
                        assert(write * (2 * m) + d * m + j < 255 * 2 * 256) by (nonlinear_arith)
                            requires
                                write < 255,
                                d < 2,
                                j < m,
                                m <= 256,
                        ;
                    }
                    candidates.push(Transition { write, direction, next_state });
                    j = j + 1;
                }
                assert((write * (2 * m) + d * m + m) == write * (2 * m) + (d + 1) * m) by (nonlinear_arith);
                d = d + 1;
            }
            assert(write * (2 * m) + 2 * m == (write + 1) * (2 * m)) by (nonlinear_arith);
            write = write + 1;
        }
        assert(write * (2 * m) == self.symbol_count * 2 * (self.state_count + 1)) by (nonlinear_arith)
            requires
                write == self.symbol_count,
                m == self.state_count + 1,
        ;
        assert(candidates@ =~= candidates_of(self.state_count, self.symbol_count));
        candidates
    }

    /// The states a rule may lead to: all normal states, then halt.
    pub(crate) fn generate_next_states(&self) -> (states: Vec<State>)
        ensures
            states@ == next_states_of(self.states()),
    {
        let mut states: Vec<State> = Vec::new();
        let mut state_id: u8 = 0;
        while state_id < self.state_count
            invariant
                state_id <= self.state_count,
                states@ =~= Seq::new(state_id as nat, |i: int| State::Normal(i as u8)),
            decreases self.state_count - state_id,
        {
            states.push(State::Normal(state_id));
            state_id = state_id + 1;
        }
        states.push(State::Halt);
        assert(states@ =~= next_states_of(self.state_count));
        states
    }

    /// Extends the partial table `current` (its first `index` slots filled)
    /// with every combination of candidates for the remaining slots, and
    /// hands each complete table to `sink`, in lexicographic order.
    fn backtrack_for_each<V: TableSink>(
        &self,
        index: usize,
        slot_count: usize,
        candidates: &[Transition],
        current: &mut Vec<Transition>,
        sink: &mut V,
    )
        requires
            old(current)@.len() == index,
            index <= slot_count,
            old(sink).inv(),
            forall|s: Seq<Transition>|
                #[trigger] completions(candidates@, old(current)@, (slot_count - index) as nat).contains(s)
                    ==> old(sink).admits(TableView { symbol_count: self.symbols(), transitions: s }),
            old(sink).has_room(all_tables(candidates@, (slot_count - index) as nat).len()),
        ensures
            final(current)@ == old(current)@,
            final(sink).inv(),
            final(sink).settings() == old(sink).settings(),
            final(sink).seen() == old(sink).seen() + completion_views(
                candidates@,
                old(current)@,
                (slot_count - index) as nat,
                self.symbols(),
            ),
            forall|t: TableView| old(sink).admits(t) ==> #[trigger] final(sink).admits(t),
            forall|m: nat|
                old(sink).has_room(all_tables(candidates@, (slot_count - index) as nat).len() + m)
                    ==> #[trigger] final(sink).has_room(m),
        decreases slot_count - index,
    {
        let ghost prefix = current@;
        let ghost n = (slot_count - index) as nat;
        let ghost sym = self.symbols();
        let ghost total = all_tables(candidates@, n).len();
        if index == slot_count {
            let table = TransitionTable::new(self.symbol_count, current.clone());
            proof {
                assert(table@.transitions =~= prefix);
                assert(prefix + Seq::<Transition>::empty() =~= prefix);
                assert(completions(candidates@, prefix, n)[0] == prefix);
                assert(completions(candidates@, prefix, n).contains(prefix));
                assert(completion_views(candidates@, prefix, n, sym) =~= seq![table@]);
            }
            sink.accept(table);
            return;
        }
        let mut k: usize = 0;
        while k < candidates.len()
            invariant
                current@ == old(current)@,
                current@.len() == index,
                index < slot_count,
                prefix == old(current)@,
                n == slot_count - index,
                n > 0,
                sym == self.symbols(),
                total == all_tables(candidates@, n).len(),
                k <= candidates@.len(),
                forall|s: Seq<Transition>|
                    #[trigger] completions(candidates@, prefix, n).contains(s)
                        ==> old(sink).admits(TableView { symbol_count: sym, transitions: s }),
                old(sink).has_room(total),
                sink.inv(),
                sink.settings() == old(sink).settings(),
                forall|t: TableView| old(sink).admits(t) ==> #[trigger] sink.admits(t),
                sink.seen() == old(sink).seen() + tables_upto(candidates@, k as nat, n).map_values(
                    |t: Seq<Transition>| TableView { symbol_count: sym, transitions: prefix + t },
                ),
                forall|m: nat|
                    old(sink).has_room(total + m)
                        ==> #[trigger] sink.has_room((total - tables_upto(candidates@, k as nat, n).len() + m) as nat),
            decreases candidates@.len() - k,
        {
            let ghost before = *sink;
            let ghost c = candidates@[k as int];
            let ghost block = all_tables(candidates@, (n - 1) as nat);
            let ghost done = tables_upto(candidates@, k as nat, n);
            let ghost p = block.len();
            proof {
                lemma_tables_upto_len(candidates@, k as nat, n);
                lemma_tables_upto_len(candidates@, (k + 1) as nat, n);
                lemma_tables_upto_len(candidates@, candidates@.len(), n);
                lemma_all_tables_len(candidates@, (n - 1) as nat);
                assert(total == tables_upto(candidates@, candidates@.len(), n).len());
                let pw = vstd::arithmetic::power::pow(candidates@.len() as int, (n - 1) as nat);
                assert((k + 1) * pw <= candidates@.len() * pw) by (nonlinear_arith)
                    requires
                        k + 1 <= candidates@.len(),
                        pw >= 0,
                ;
                assert((k + 1) * pw == k * pw + pw) by (nonlinear_arith);
                assert(done.len() + p <= total);
                assert(sink.has_room((total - done.len() + 0) as nat));
                sink.lemma_room_shrinks(p, (total - done.len()) as nat);
                assert forall|s: Seq<Transition>| #[trigger] completions(candidates@, prefix.push(c), (n - 1) as nat).contains(s)
                    implies sink.admits(TableView { symbol_count: sym, transitions: s }) by {
                    lemma_completions_extend(candidates@, prefix, n, k as int, s);
                }
            }
            current.push(candidates[k]);
            self.backtrack_for_each(index + 1, slot_count, candidates, current, sink);
            current.pop();
            proof {
                let mk = |t: Seq<Transition>| TableView { symbol_count: sym, transitions: prefix + t };
                let mk_next = |t: Seq<Transition>| TableView { symbol_count: sym, transitions: prefix.push(c) + t };
                let lifted = block.map_values(|t: Seq<Transition>| seq![c] + t);
                assert(tables_upto(candidates@, (k + 1) as nat, n) == done + lifted);
                assert((done + lifted).map_values(mk) =~= done.map_values(mk) + block.map_values(mk_next)) by {
                    assert forall|i: int| 0 <= i < block.len() implies
                        prefix + (seq![c] + block[i]) == prefix.push(c) + block[i] by {
                        assert(prefix + (seq![c] + block[i]) =~= prefix.push(c) + block[i]);
                    }
                }
                assert(completion_views(candidates@, prefix.push(c), (n - 1) as nat, sym) == block.map_values(mk_next));
                assert(sink.seen() =~= old(sink).seen() + (done + lifted).map_values(mk));
                assert forall|m: nat| old(sink).has_room(total + m)
                    implies #[trigger] sink.has_room((total - tables_upto(candidates@, (k + 1) as nat, n).len() + m) as nat) by {
                    let rest = (total - done.len() - p + m) as nat;
                    assert(before.has_room((total - done.len() + m) as nat));
                    assert((total - done.len() + m) as nat == p + rest);
                }
                assert(current@ =~= prefix);
            }
            k = k + 1;
        }
        proof {
            assert(all_tables(candidates@, n) == tables_upto(candidates@, candidates@.len(), n));
            assert forall|m: nat| old(sink).has_room(total + m) implies #[trigger] sink.has_room(m) by {
                assert((total - tables_upto(candidates@, candidates@.len(), n).len() + m) as nat == m);
            }
        }
    }
}

} // verus!
