//! Key-event resolution for a matrix keyboard: debouncing of raw switch
//! samples, layered action lookup, and assembly of boot keyboard reports.

pub mod action;
pub mod debounce;
pub mod grid;
pub mod keyboard;
pub mod layout;
pub mod report;
pub mod resolver;
pub mod transport;
