//! Port inspection: which process owns a network port.
pub mod text;
pub mod types;
pub mod lsof;
pub mod listing;
pub mod calendar;
pub mod process;
pub mod procnet;
pub mod inspect;
pub mod display;
