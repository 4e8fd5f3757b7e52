//! A verified interpreter for a small 8-bit virtual machine with sixteen
//! registers, 4096 bytes of memory, a 64x32 monochrome display, sixteen keys
//! and two countdown timers.
//!
//! The machine state and every instruction's effect are described by spec
//! functions over mathematical sequences (`state`, `step`); the executable
//! interpreter (`cpu`) is proved to follow that description step by step,
//! and `laws` proves the properties that hold of every machine state.

pub mod cpu;
pub mod laws;
pub mod state;
pub mod step;
