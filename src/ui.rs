//! What the display around the engine reads and writes: the area and
//! attempts shown, and the restock count typed in.

use vstd::prelude::*;
use crate::board::BoardState;

verus! {

/// What the status line shows: the size of the bounds and the attempts.
#[derive(Clone, Copy, Debug, Default, PartialEq, Eq, Structural)]
pub struct StateWidgetProps {
    pub area_x: i64,
    pub area_y: i64,
    pub attempts: usize,
}

/// The text typed into the restart form.
#[derive(Clone, Debug, Default)]
pub struct InputFieldsState {
    pub n: String,
    pub value2: String,
}

/// The value of an ASCII decimal digit.
pub open spec fn digit_value(c: char) -> int {
    c as int - '0' as int
}

/// Whether every character of `d` is an ASCII decimal digit.
pub open spec fn all_digits(d: Seq<char>) -> bool {
    forall|i: int| 0 <= i < d.len() ==> '0' <= #[trigger] d[i] <= '9'
}

/// The number that the decimal digits `d` spell.
pub open spec fn decimal_value(d: Seq<char>) -> int
    decreases d.len(),
{
    if d.len() == 0 {
        0
    } else {
        decimal_value(d.drop_last()) * 10 + digit_value(d.last())
    }
}

/// The digits of `s` after an optional leading `+`.
pub open spec fn unsigned_digits(s: Seq<char>) -> Seq<char> {
    if s.len() > 0 && s[0] == '+' {
        s.drop_first()
    } else {
        s
    }
}

/// What `u16`'s parser reads from `s`: a number if `s` is an optional `+`
/// followed by one or more ASCII digits whose value fits in `u16`.
pub open spec fn parsed_u16(s: Seq<char>) -> Option<u16> {
    let d = unsigned_digits(s);
    if d.len() > 0 && all_digits(d) && decimal_value(d) <= u16::MAX {
        Some(decimal_value(d) as u16)
    } else {
        None
    }
}

/// The per-shape count that the input fields ask for: the number in the
/// first field, or one if there is no field or its text is not a number.
pub open spec fn restock_value(input_fields: Seq<InputFieldsState>) -> u16 {
    if input_fields.len() == 0 {
        1
    } else {
        match parsed_u16(input_fields[0].n@) {
            Some(n) => n,
            None => 1,
        }
    }
}

/// Relies on `str::parse::<u16>`, which accepts an optional `+` followed by
/// decimal digits and fails on anything else or on a value above `u16::MAX`.
#[verifier::external_body]
fn parse_u16(s: &str) -> (r: Option<u16>)
    ensures
        r == parsed_u16(s@),
{
    s.parse::<u16>().ok()
}

/// The per-shape count for a restart: the number in the first input field,
/// or one if there is no field or its text is not a number.
pub fn restock_count(input_fields: &Vec<InputFieldsState>) -> (r: u16)
    ensures
        r == restock_value(input_fields@),
{
    if input_fields.len() == 0 {
        return 1;
    }
    match parse_u16(input_fields[0].n.as_str()) {
        Some(n) => n,
        None => 1,
    }
}

/// The status line for `board_state`: the width and height of the bounds
/// and the attempts, or all zero while nothing is placed.
pub fn statewidget_render(board_state: &BoardState) -> (r: StateWidgetProps)
    requires
        board_state.wf(),
    ensures
        board_state.bounds_view().is_empty() ==> r == (StateWidgetProps { area_x: 0, area_y: 0, attempts: 0 }),
        !board_state.bounds_view().is_empty() ==> {
            &&& r.area_x == board_state.bounds_view().max_x - board_state.bounds_view().min_x + 1
            &&& r.area_y == board_state.bounds_view().max_y - board_state.bounds_view().min_y + 1
            &&& r.attempts == board_state.attempts_view()
        },
{
    let bounds = board_state.bounds();
    if bounds.is_default() {
        StateWidgetProps { area_x: 0, area_y: 0, attempts: 0 }
    } else {
        StateWidgetProps {
            area_x: bounds.width(),
            area_y: bounds.height(),
            attempts: board_state.attempts(),
        }
    }
}

} // verus!
