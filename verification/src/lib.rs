//! Managed-memory runtime for a small dynamic language: tagged values, a
//! bounded word heap, a stop-the-world mark-compact collector, fault
//! reporting and a cycle-safe value printer.
//!
//! The heap is a region of 64-bit words with a byte address for its first
//! word; a reference is the address of an object's header plus one. The
//! stack is a vector of words in which slot 0 is the word at the stack
//! pointer and the last slot is the word at the stack base.
//!
//! - [`value`]: how a word is read as an integer, a boolean, `nil` or a
//!   reference.
//! - [`heap`], [`layout`]: the heap, how objects lie in it, and what can be
//!   reached from a stack.
//! - [`mutator`]: writing new objects and elements.
//! - [`mark`], [`compact`], [`collector`]: the phases of a collection, the
//!   collector, and the allocation trap.
//! - [`relocate`], [`laws`]: what a collection makes of a heap, and what
//!   holds of every collection.
//! - [`printer`], [`dump`], [`text`]: the value printer, the debugging
//!   dumps, and numerals.
//! - [`fault`], [`input`]: fault lines and exit statuses, and the reading
//!   of the program's arguments.
//! - [`validate`]: run-time tests of what the collector asks of a heap.

pub mod collector;
pub mod compact;
pub mod dump;
pub mod fault;
pub mod heap;
pub mod input;
pub mod laws;
pub mod layout;
pub mod mark;
pub mod mutator;
pub mod printer;
pub mod relocate;
pub mod text;
pub mod validate;
pub mod value;
