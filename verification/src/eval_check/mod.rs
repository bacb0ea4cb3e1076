//! Compilation and analysis of the check-polynomial tape.

pub mod tape;
pub mod program;
pub mod reorder;
pub mod powers;
pub mod unrolled;
pub mod interpreter_wgsl;
pub mod slots;
pub mod interpreter;
pub mod slotted;
pub mod hybrid;
pub mod split;
pub mod route;
