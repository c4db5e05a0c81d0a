//! Tasks fed by interrupts.
pub mod keyboard;
