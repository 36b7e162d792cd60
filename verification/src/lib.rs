//! Epoch-based memory reclamation for one writer and many readers.
//!
//! One thread, the writer, replaces the payloads of shared pointers while
//! any number of reader threads look at them. A payload that was replaced
//! cannot be destroyed at once, because a reader may still hold a reference
//! to it. The writer therefore retires it, stamped with the global epoch of
//! that moment, and destroys it in a later collection cycle, when every
//! reader that could have seen it has moved on.
//!
//! A reader says what it may still see by pinning: it announces the global
//! epoch in its slot and withdraws the announcement when its last guard is
//! dropped. A collection cycle advances the global epoch, reads every slot
//! to find the oldest announced epoch, and reclaims what was retired before
//! it; with no reader pinned it reclaims everything.
//!
//! # Use
//!
//! `EpochGcDomain::new` returns the writer's `GcHandle` and the domain, which
//! is cloned into the reader threads. Each reader calls `register_reader`
//! once and `pin` around every access; `EpochPtr::load` takes the guard,
//! `EpochPtr::store` takes the handle, and `GcHandle::collect` runs a cycle.
//!
//! # What is proved
//!
//! - `garbage`: the staging area. `GarbageSet::add` and `GarbageSet::collect`
//!   are proved against `staged` and `reclaimed`, which say which records
//!   are staged after a call, bag by bag.
//! - `census`: the sweep over the reader slots. The minimum active epoch, the
//!   count of abandoned slots, the cleanup cadence and the eviction from the
//!   registry are proved against `census_of`, `cleanup_due` and `retained`.
//! - `collector`: the writer's handle. What a cycle and a retirement leave
//!   staged is proved for every value that the shared epoch and the slots
//!   may hold when they are read.
//! - `reader`: the guard count of a reader, proved against `entered` and
//!   `exited`, with the law that nested guards keep the first announcement.
//! - `ptr`: the cell of a protected pointer, proved to hand out what was
//!   stored last.
//! - `protocol`: the protocol as a transition system over the same
//!   functions, with the proof that in no interleaving of the model a
//!   reader holds a reference to a destroyed payload.
//!
//! # What is taken on trust
//!
//! The values of atomics, cells and locks are shared between threads, and
//! the verifier sees none of them: a value read from shared memory is
//! treated as arbitrary. The module `sync` lists the functions of
//! `antidote` and `std` that are called without proof; `state` holds one
//! more, the store to a reader's slot, of which it is taken on trust that it
//! does not unwind. The transition
//! system of `protocol` is a description of the threads' accesses, written
//! by hand from the executable code; it shares the deciding functions with
//! that code, not the accesses themselves.

pub mod sync;
pub mod state;
pub mod garbage;
pub mod census;
pub mod collector;
pub mod reader;
pub mod domain;
pub mod ptr;
pub mod protocol;

pub use collector::GcHandle;
pub use domain::EpochGcDomain;
pub use domain::EpochGcDomainBuilder;
pub use ptr::EpochPtr;
pub use reader::LocalEpoch;
pub use reader::PinGuard;
