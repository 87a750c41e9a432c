//! Human-readable names for states and directions, as the search report
//! prints them: states A, B, C, ... and H for halt; moves L and R.

use crate::model::{Direction, State};
use vstd::prelude::*;

verus! {

/// The one-character string of `c`, through `ToString::to_string` on a
/// `char`, whose `Display` writes the character itself.
#[verifier::external_body]
fn char_to_string(c: char) -> (text: String)
    ensures
        text@ == seq![c],
{
    c.to_string()
}

/// The letter of normal state `id`: 0 is A, 1 is B, 2 is C, ...
pub open spec fn state_letter(id: u8) -> char {
    (65 + id) as char
}

/// The name of a state: its letter, or H for the halt state.
pub open spec fn state_name(state: State) -> Seq<char> {
    match state {
        State::Normal(id) => seq![state_letter(id)],
        State::Halt => seq!['H'],
    }
}

/// Each state's name is one character: normal state `id` is the character
/// with code 65 (`A`) plus `id`, so different normal states get different
/// letters, and the halt state is `H`.
pub proof fn law_state_names(id: u8, other: u8)
    requires
        id <= 190,
        other <= 190,
    ensures
        state_name(State::Normal(id)).len() == 1,
        state_name(State::Normal(id))[0] as u32 == 65 + id,
        state_name(State::Halt) == seq!['H'],
        id != other ==> state_name(State::Normal(id)) != state_name(State::Normal(other)),
{
    if id != other {
        assert(state_name(State::Normal(id))[0] != state_name(State::Normal(other))[0]);
    }
}

/// The name of normal state `id`: 0 -> "A", 1 -> "B", 2 -> "C".
/// The letter's code is 65 (A) + `id`, so `id` stays at most 190.
pub fn normal_state_name(id: u8) -> (name: String)
    requires
        id <= 190,
    ensures
        name@ == seq![state_letter(id)],
{
    let code: u8 = 65 + id;
    let ch = code as char;
    char_to_string(ch)
}

/// The name of a state: A, B, C, ... for normal states, H for halt.
pub fn format_state(state: State) -> (name: String)
    requires
        state matches State::Normal(id) ==> id <= 190,
    ensures
        name@ == state_name(state),
{
    match state {
        State::Normal(id) => normal_state_name(id),
        State::Halt => char_to_string('H'),
    }
}

/// The name of a direction: L for left, R for right.
pub fn format_direction(direction: Direction) -> (name: &'static str)
    ensures
        name@ == match direction {
            Direction::Left => "L"@,
            Direction::Right => "R"@,
        },
{
    match direction {
        Direction::Left => "L",
        Direction::Right => "R",
    }
}

} // verus!
