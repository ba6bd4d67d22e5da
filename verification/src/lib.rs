//! Classic queue, stack, heap and tree routines with machine-checked contracts.
//!
//! The centre of the crate is [`queue`]: a deterministic, tick-driven admission
//! simulator for a bounded single-server buffer.
pub mod heap;
pub mod order;
pub mod queue;
pub mod stack;
pub mod tree;
