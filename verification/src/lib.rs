//! wlRIX desktop icons, as a verified library.
//!
//! The parts of the desktop that decide things -- where icons go, what a `.desktop` file
//! says, what a click means, what the menu offers -- live here with their contracts proved.
//! Reading the disk, talking to the compositor and drawing text are the program's business.

pub mod canvas;
pub mod config;
pub mod desktop_entry;
pub mod emblem;
pub mod entries;
pub mod image;
pub mod label;
pub mod layout;
pub mod locale;
pub mod menu;
pub mod motif;
pub mod open;
pub mod outputs;
pub mod paint;
pub mod pointer;
pub mod running;
pub mod select;
pub mod session;
pub mod state;
pub mod strings;
pub mod trash;
pub mod xdg;
