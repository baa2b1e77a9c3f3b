//! Parity checks and the messages that the counter views show.
use vstd::prelude::*;

verus! {

/// Whether `n` is odd, in the mathematical sense (negative values included).
pub open spec fn odd(n: int) -> bool {
    n % 2 == 1
}

/// True exactly when the lowest bit of `value` is set, that is when it is odd.
pub fn is_n_odd(value: i32) -> (r: bool)
    ensures
        r == odd(value as int),
{
    let r = value & 1 == 1;
    assert((value & 1 == 1) == (value % 2 != 0)) by (bit_vector);
    r
}

/// The message of the match view for a counter value.
pub fn match_message(value: i32) -> (r: &'static str)
    ensures
        value == 0 ==> r@ == "Zero"@,
        value == 1 ==> r@ == "One"@,
        value != 0 && value != 1 && odd(value as int) ==> r@ == "Odd"@,
        value != 0 && value != 1 && !odd(value as int) ==> r@ == "Even"@,
{
    proof {
        reveal_strlit("Zero");
        reveal_strlit("One");
        reveal_strlit("Odd");
        reveal_strlit("Even");
    }
    if value == 0 {
        "Zero"
    } else if value == 1 {
        "One"
    } else if is_n_odd(value) {
        "Odd"
    } else {
        "Even"
    }
}

/// The parity line of the if/else view.
pub fn parity_message(value: i32) -> (r: &'static str)
    ensures
        odd(value as int) ==> r@ == "is odd"@,
        !odd(value as int) ==> r@ == "is even"@,
{
    proof {
        reveal_strlit("is odd");
        reveal_strlit("is even");
    }
    if is_n_odd(value) {
        "is odd"
    } else {
        "is even"
    }
}

/// The optional note of the option view: present only for odd values.
pub fn odd_message(value: i32) -> (r: Option<&'static str>)
    ensures
        odd(value as int) ==> r is Some && r->0@ == "is odd"@,
        !odd(value as int) ==> r is None,
{
    proof {
        reveal_strlit("is odd");
    }
    if is_n_odd(value) {
        Some("is odd")
    } else {
        None
    }
}

/// The note of the concise option view: present only for odd values.
pub fn odd_note(value: i32) -> (r: Option<&'static str>)
    ensures
        odd(value as int) ==> r is Some && r->0@ == "Is odd"@,
        !odd(value as int) ==> r is None,
{
    proof {
        reveal_strlit("Is odd");
    }
    if is_n_odd(value) {
        Some("Is odd")
    } else {
        None
    }
}

/// Whether the show view picks its main branch rather than its fallback.
pub fn shows_greater(value: i32) -> (r: bool)
    ensures
        r == (value > 5),
{
    value > 5
}

/// What the type-conversion view shows for a counter value.
#[derive(Debug, Clone, Copy, PartialEq, Eq, Structural)]
pub enum ConversionView {
    /// The value is one: shown preformatted.
    One,
    /// The value is two: shown as a paragraph.
    Two,
    /// Any other value: shown in a text area.
    Text(i32),
}

pub fn conversion_view(value: i32) -> (r: ConversionView)
    ensures
        value == 1 ==> r == ConversionView::One,
        value == 2 ==> r == ConversionView::Two,
        value != 1 && value != 2 ==> r == ConversionView::Text(value),
{
    let odd = is_n_odd(value);
    if odd && value == 1 {
        ConversionView::One
    } else if !odd && value == 2 {
        ConversionView::Two
    } else {
        ConversionView::Text(value)
    }
}

} // verus!
