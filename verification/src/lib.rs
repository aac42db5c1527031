//! A managed virtual heap: a fixed-size region of machine words, carved into
//! headered blocks, handed out to a client virtual machine and reclaimed by a
//! mark-and-sweep collector that is driven by client-supplied roots.
//!
//! Every location is a word index into the region that a heap owns, so that
//! all memory accesses are bounds-checked by proof rather than at run time.

pub mod types;
pub mod region;
pub mod block;
pub mod layout;
pub mod laws;
pub mod address;
pub mod heap;
pub mod managed;
pub mod trace;

