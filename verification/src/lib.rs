//! A cycle sequencer's language: pattern files, mini-notation, exact cycle arithmetic.

pub mod audio;
pub mod banks;
pub mod bignat;
pub mod binary;
pub mod clips;
pub mod dsl;
pub mod event_spec;
pub mod mixing;
pub mod naming;
pub mod number;
pub mod order;
pub mod pat;
pub mod plan;
pub mod ratio;
pub mod rounding;
pub mod session;
pub mod splitting;
pub mod table;
pub mod text;
