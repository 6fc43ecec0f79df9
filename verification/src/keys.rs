//! Codes of the keys and events that the helper emits by itself, as the Linux
//! input subsystem numbers them.

use vstd::prelude::*;

verus! {

pub const KEY_1: u16 = 2;
pub const KEY_2: u16 = 3;
pub const KEY_3: u16 = 4;
pub const KEY_4: u16 = 5;
pub const KEY_5: u16 = 6;
pub const KEY_6: u16 = 7;
pub const KEY_7: u16 = 8;
pub const KEY_8: u16 = 9;
pub const KEY_9: u16 = 10;
pub const KEY_0: u16 = 11;
pub const KEY_TAB: u16 = 15;
pub const KEY_E: u16 = 18;
pub const KEY_U: u16 = 22;
pub const KEY_ENTER: u16 = 28;
pub const KEY_LEFTCTRL: u16 = 29;
pub const KEY_A: u16 = 30;
pub const KEY_D: u16 = 32;
pub const KEY_F: u16 = 33;
pub const KEY_LEFTSHIFT: u16 = 42;
pub const KEY_C: u16 = 46;
pub const KEY_B: u16 = 48;
pub const KEY_RIGHTSHIFT: u16 = 54;
pub const KEY_SPACE: u16 = 57;
/// AltGr, the ISO Level3 shift.
pub const KEY_RIGHTALT: u16 = 100;

/// The number of key codes that a device can declare.
pub const KEY_COUNT: u16 = 0x300;

/// Event type of synchronization events.
pub const EV_SYN: u16 = 0;
/// Event type of key events.
pub const EV_KEY: u16 = 1;
/// Code of the synchronization event that ends a report.
pub const SYN_REPORT: u16 = 0;

} // verus!
