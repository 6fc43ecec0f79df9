//! Verified core of a helper that types text through a virtual keyboard.
//!
//! A layout is read from an XKB keymap ([`keymap`]), its dead keys are composed
//! ([`compose`]), and a mapper from characters to key strokes is built ([`mapper`]),
//! with the simplest chords for each character ([`chord`]). A text is then planned as
//! key actions ([`typing`]) on a virtual keyboard ([`keyboard`]). [`layout`] finds out
//! which layout to load, and [`socket`] where requests come in and how they are
//! answered. [`choice`] states which of the strokes of a keymap the mapper keeps,
//! [`reading`] what the mapper makes of what a keymap says of each key, [`keystrokes`]
//! what a reader of the key events sees of a typed text, and [`laws`] what else holds
//! across these modules.

pub mod choice;
pub mod chord;
pub mod compose;
pub mod keyboard;
pub mod keymap;
pub mod keys;
pub mod keystrokes;
pub mod laws;
pub mod layout;
pub mod mapper;
pub mod reading;
pub mod socket;
pub mod text;
pub mod typing;
