//! Pure decisions of the render driver: the cadence of flashing elements and
//! the per-character advance widths of the terminal's font.

use vstd::prelude::*;

use crate::FLASH_TIME_MS;

verus! {

/// The horizontal advance of a character, in sixtieths of the font size:
/// narrow glyphs advance 15, wide ones 40, most 30. The host multiplies this
/// by the font size to position the next glyph.
pub open spec fn spec_char_advance(c: char) -> u32 {
    if c == '!' || c == 'I' || c == 'i' || c == 'j' || c == 'l' || c == '\'' {
        15
    } else if c == '"' || c == '1' || c == ' ' || c == 'f' || c == 'r' || c == 's' || c == 't' {
        20
    } else if c == 'F' || c == 'J' || c == 'L' || c == 'c' || c == 'k' || c == 'u' || c == 'x' || c
        == 'y' || c == 'z' {
        24
    } else if c == 'G' || c == 'M' || c == 'N' || c == 'O' || c == 'Q' || c == 'W' || c == 'm' || c
        == 'w' {
        40
    } else {
        30
    }
}

/// Executable twin of [`spec_char_advance`].
pub fn char_advance(c: char) -> (u: u32)
    ensures
        u == spec_char_advance(c),
{
    match c {
        '!' | 'I' | 'i' | 'j' | 'l' | '\'' => 15,
        '"' | '1' | ' ' | 'f' | 'r' | 's' | 't' => 20,
        'F' | 'J' | 'L' | 'c' | 'k' | 'u' | 'x' | 'y' | 'z' => 24,
        'G' | 'M' | 'N' | 'O' | 'Q' | 'W' | 'm' | 'w' => 40,
        _ => 30,
    }
}

/// Whether a flashing element (the input cursor, a continue hint) is visible
/// `now_ms` milliseconds into the clock, toggling each flash interval:
/// hidden for one interval after the reference instant `then_ms`, visible for
/// the next, and the reference advances to `now_ms` once a full cycle has
/// passed.
pub fn check_flash(now_ms: u64, then_ms: &mut u64) -> (visible: bool)
    requires
        *old(then_ms) <= now_ms,
    ensures
        visible == (now_ms - *old(then_ms) > FLASH_TIME_MS),
        *final (then_ms) == (if now_ms - *old(then_ms) > 2 * FLASH_TIME_MS {
            now_ms
        } else {
            *old(then_ms)
        }),
{
    let time_since = now_ms - *then_ms;
    if time_since > FLASH_TIME_MS * 2 {
        *then_ms = now_ms;
        true
    } else if time_since > FLASH_TIME_MS {
        true
    } else {
        false
    }
}

} // verus!
