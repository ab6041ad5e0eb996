//! Small building blocks of the Rust standard library, written out and proved:
//! a string splitter, a vector builder, flattening adaptors, the state machines
//! behind `Cell`, `RefCell` and `Rc`, and the decision core of a channel.

pub mod avec;
pub mod cell;
pub mod channel;
pub mod flat_map;
pub mod flatten;
pub mod str_split;
