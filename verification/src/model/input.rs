//! What is typed into a one-line input. An input that is not open is `None`.

use vstd::prelude::*;

use crate::number::{read_signed_number, signed_number};
use crate::pattern::{finite, positive, Double, HUNDRED, SIGN};
use crate::model::graph::slot_model;
use crate::protocol::Text;
use crate::text::{
    chars_of, contains_char, control_char, digit_char, fold_char, folded_char, is_control,
    is_digit, is_lower, lower_char,
};

verus! {

/// Opens an input.
pub fn open_modal(slot: &mut Option<String>)
    ensures
        slot_model(*final(slot)) == Some(Seq::<char>::empty()),
{
    *slot = Some(String::new());
}

/// Closes an input.
pub fn close_modal(slot: &mut Option<String>)
    ensures
        slot_model(*final(slot)) == None::<Text>,
{
    *slot = None;
}

/// An input without its last character.
pub open spec fn backspaced(slot: Option<Text>) -> Option<Text> {
    match slot {
        Some(s) => Some(
            if s.len() > 0 {
                s.drop_last()
            } else {
                s
            },
        ),
        None => None,
    }
}

/// Takes the last character off an input.
pub fn backspace_modal(slot: &mut Option<String>)
    ensures
        slot_model(*final(slot)) == backspaced(slot_model(*old(slot))),
{
    if let Some(buf) = slot {
        let _ = buf.pop();
    }
}

/// The character may follow in a decimal number.
pub open spec fn fits_decimal(s: Text, c: char) -> bool {
    is_digit(c) || (c == '.' && !s.contains('.'))
}

/// A decimal number after a key was pressed.
pub open spec fn decimal_typed(s: Text, c: char) -> Text {
    if fits_decimal(s, c) {
        s.push(c)
    } else {
        s
    }
}

/// Adds a character that may follow in a decimal number. Tells whether it
/// was added.
pub fn push_digit_or_decimal(buf: &mut String, c: char) -> (kept: bool)
    ensures
        kept == fits_decimal(old(buf)@, c),
        final(buf)@ == decimal_typed(old(buf)@, c),
{
    if digit_char(c) || (c == '.' && !contains_char(buf.as_str(), '.')) {
        buf.push(c);
        true
    } else {
        false
    }
}

/// An aggregation expression after a key was pressed: small letters, digits
/// and one point are taken, capitals as small letters.
pub open spec fn agg_typed(s: Text, c: char) -> Text {
    let d = folded_char(c);
    if is_lower(d) || fits_decimal(s, d) {
        s.push(d)
    } else {
        s
    }
}

/// A lookback after a key was pressed: a decimal number, then one `s` or
/// `m`.
pub open spec fn lookback_typed(s: Text, c: char) -> Text {
    if s.len() > 0 && (s.last() == 's' || s.last() == 'm') {
        s
    } else if fits_decimal(s, c) {
        s.push(c)
    } else if (c == 's' || c == 'm') && s.len() > 0 {
        s.push(c)
    } else {
        s
    }
}

/// A search after a key was pressed: anything but control characters is
/// taken.
pub open spec fn search_typed(s: Text, c: char) -> Text {
    if is_control(c) {
        s
    } else {
        s.push(c)
    }
}

pub open spec fn decimal_slot(slot: Option<Text>, c: char) -> Option<Text> {
    match slot {
        Some(s) => Some(decimal_typed(s, c)),
        None => None,
    }
}

pub open spec fn agg_slot(slot: Option<Text>, c: char) -> Option<Text> {
    match slot {
        Some(s) => Some(agg_typed(s, c)),
        None => None,
    }
}

pub open spec fn lookback_slot(slot: Option<Text>, c: char) -> Option<Text> {
    match slot {
        Some(s) => Some(lookback_typed(s, c)),
        None => None,
    }
}

pub open spec fn search_slot(slot: Option<Text>, c: char) -> Option<Text> {
    match slot {
        Some(s) => Some(search_typed(s, c)),
        None => None,
    }
}

/// A key is pressed in a number input.
pub fn type_decimal(slot: &mut Option<String>, c: char)
    ensures
        slot_model(*final(slot)) == decimal_slot(slot_model(*old(slot)), c),
{
    if let Some(buf) = slot {
        let _ = push_digit_or_decimal(buf, c);
    }
}

/// A key is pressed in the aggregation input.
pub fn type_agg(slot: &mut Option<String>, c: char)
    ensures
        slot_model(*final(slot)) == agg_slot(slot_model(*old(slot)), c),
{
    if let Some(buf) = slot {
        let d: char = fold_char(c);
        if lower_char(d) || digit_char(d) || (d == '.' && !contains_char(buf.as_str(), '.')) {
            buf.push(d);
        }
    }
}

/// A key is pressed in the lookback input.
pub fn type_lookback(slot: &mut Option<String>, c: char)
    ensures
        slot_model(*final(slot)) == lookback_slot(slot_model(*old(slot)), c),
{
    if let Some(buf) = slot {
        let chars = chars_of(buf.as_str());
        let n: usize = chars.len();
        let has_suffix: bool = n > 0 && (chars[n - 1] == 's' || chars[n - 1] == 'm');
        if !has_suffix {
            let kept: bool = push_digit_or_decimal(buf, c);
            if !kept && (c == 's' || c == 'm') && n > 0 {
                buf.push(c);
            }
        }
    }
}

/// A key is pressed in the search input.
pub fn type_search(slot: &mut Option<String>, c: char)
    ensures
        slot_model(*final(slot)) == search_slot(slot_model(*old(slot)), c),
{
    if let Some(buf) = slot {
        if !control_char(c) {
            buf.push(c);
        }
    }
}

/// What a chance input asks for: a percentage of at most one hundred.
pub open spec fn chance_input(s: Text) -> Option<Double> {
    match signed_number(s) {
        Some(n) => if n.lies_within(HUNDRED) {
            Some(n)
        } else {
            None
        },
        None => None,
    }
}

/// Reads a chance input.
pub fn parse_chance_input(s: &str) -> (r: Option<Double>)
    ensures
        r == chance_input(s@),
{
    match read_signed_number(&chars_of(s)) {
        Some(n) => if n.bits <= HUNDRED || n.bits == SIGN {
            Some(n)
        } else {
            None
        },
        None => None,
    }
}

/// What a window input asks for: a positive number of seconds.
pub open spec fn window_input(s: Text) -> Option<Double> {
    match signed_number(s) {
        Some(n) => if n.is_finite() && n.is_positive() {
            Some(n)
        } else {
            None
        },
        None => None,
    }
}

/// Reads a window input.
pub fn parse_window_input(s: &str) -> (r: Option<Double>)
    ensures
        r == window_input(s@),
{
    match read_signed_number(&chars_of(s)) {
        Some(n) => if finite(n) && positive(n) {
            Some(n)
        } else {
            None
        },
        None => None,
    }
}

/// The text holds digits and at most one point.
pub open spec fn decimal_form(s: Text) -> bool {
    &&& forall|i: int| 0 <= i < s.len() ==> is_digit(#[trigger] s[i]) || s[i] == '.'
    &&& forall|i: int, j: int| 0 <= i < j < s.len() ==> !(#[trigger] s[i] == '.' && #[trigger] s[j] == '.')
}

/// Whatever keys are pressed, a number input holds digits and at most one
/// point.
pub proof fn decimal_input_stays_decimal(s: Text, c: char)
    requires
        decimal_form(s),
    ensures
        decimal_form(decimal_typed(s, c)),
        decimal_form(backspaced(Some(s))->0),
{
    if fits_decimal(s, c) {
        let t = s.push(c);
        assert forall|i: int, j: int| 0 <= i < j < t.len() implies !(#[trigger] t[i] == '.'
            && #[trigger] t[j] == '.') by {
            if j == s.len() {
                if t[i] == '.' && c == '.' {
                    assert(s[i] == '.');
                    assert(s.contains('.'));
                    assert(is_digit('.'));
                }
            } else {
                assert(s[i] == t[i] && s[j] == t[j]);
            }
        }
    }
}

/// The text is a decimal number with at most one unit letter behind it.
pub open spec fn lookback_form(s: Text) -> bool {
    decimal_form(s) || (s.len() > 1 && (s.last() == 's' || s.last() == 'm') && decimal_form(
        s.drop_last(),
    ))
}

/// Whatever keys are pressed, a lookback input holds a decimal number with at
/// most one unit letter behind it.
pub proof fn lookback_input_stays_lookback(s: Text, c: char)
    requires
        lookback_form(s),
    ensures
        lookback_form(lookback_typed(s, c)),
        lookback_form(backspaced(Some(s))->0),
{
    let ended = s.len() > 0 && (s.last() == 's' || s.last() == 'm');
    if !ended {
        decimal_input_stays_decimal(s, c);
        if !fits_decimal(s, c) {
            assert(s.push(c).drop_last() =~= s);
        }
    } else {
        if decimal_form(s) {
            assert(is_digit(s[s.len() - 1]) || s[s.len() - 1] == '.');
        }
    }
    if decimal_form(s) {
        decimal_input_stays_decimal(s, c);
    }
}

/// Whatever keys are pressed, a search input holds no control characters.
pub proof fn search_input_stays_printable(s: Text, c: char)
    requires
        forall|i: int| 0 <= i < s.len() ==> !is_control(#[trigger] s[i]),
    ensures
        forall|i: int|
            0 <= i < search_typed(s, c).len() ==> !is_control(#[trigger] search_typed(s, c)[i]),
{
}

} // verus!
