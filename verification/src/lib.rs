//! Simpleterm is a bespoke fake terminal: it lays out message text inside a
//! retro-styled window, reveals it with a typewriter animation, and collects
//! single-line keyboard input.
//!
//! This crate holds the verified core: the text layout engine, the message
//! model with its quote-based coloring, command parsing, color brightness
//! comparison, and the terminal session state machine. The windowing,
//! font loading and pixel drawing live outside, driven by an event pump that
//! feeds the state machine one event per frame.

use vstd::prelude::*;

pub mod color;
pub mod command;
pub mod draw;
pub mod message;
pub mod terminal;
pub mod text;

verus! {

/// How many milliseconds elements like "Press Enter to Continue" or the input
/// cursor take before toggling their flash state.
pub const FLASH_TIME_MS: u64 = 500;

/// How many milliseconds the terminal takes to type a single character when
/// displaying a message.
pub const TYPE_TIME_MS: u64 = 30;

} // verus!
