//! A verified core for a headless terminal test harness: the byte-level
//! escape-sequence tracker, the screen grid and its renderings, the key and
//! mouse encodings, inline-graphics capture and the UTF-8 sanitizer.
use vstd::prelude::*;

pub mod text;
pub mod keys;
pub mod utf8;
pub mod base64;
pub mod bytes;
pub mod graphics;
pub mod screen;
pub mod diff;
pub mod tracker;
pub mod render;
pub mod error;
pub mod words;
pub mod parse;
pub mod shadow;
pub mod unhandled;
pub mod vt;
pub mod emulator;
pub mod terminal;
pub mod cli;
pub mod round_trip;
pub mod painted_diff;
pub mod commands;
pub mod wire;
pub mod styled;
pub mod gestures;

verus! {

} // verus!
