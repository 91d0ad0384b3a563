//! The logic of kaimirror, a screen mirror for KaiOS phones: what is typed and
//! how, what is read off the screen, how the streams and packets from the
//! phone are taken apart, and what its command lines mean.
//!
//! * `keys`, `multitap`, `keypad`: the phone's keys, typing on them by
//!   multi-tap, and the proof that what is typed lands.
//! * `crop`, `imemode`: reading the input mode off the status bar.
//! * `controller`, `control`: the hand that types, and the terminal session
//!   that drives it.
//! * `stream`, `sink`: frames out of a stream, and on to a viewer or recorder.
//! * `json`, `document`: JSON, and what the reading of a written document gives
//!   back.
//! * `rdp`, `devtools`, `survey`: reading the screen as text over the
//!   phone's debugging socket.
//! * `adb`, `cli`: what is asked of adb, and of this program.
//! * `pump`: the half that runs on the phone.
//! * `agreement`: that the host and the pump mean the same by what they send.
//! * `text`, `words`: operations on text that the others are built from.

pub mod adb;
pub mod agreement;
pub mod cli;
pub mod control;
pub mod controller;
pub mod crop;
pub mod devtools;
pub mod document;
pub mod imemode;
pub mod json;
pub mod keypad;
pub mod keys;
pub mod multitap;
pub mod pump;
pub mod rdp;
pub mod sink;
pub mod stream;
pub mod survey;
pub mod text;
pub mod words;
