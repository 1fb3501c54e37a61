//! An in-memory to-do list: task records with an optional deadline, held in an
//! ordered collection that supports adding, removing, lookup by id or title,
//! and stable sorting by title or by deadline date.
//!
//! The collection is modelled as a sequence of task views; every operation's
//! contract states its effect on that sequence, and the two sorts are proved
//! sorted and stable (per-key subsequences preserved), which determines their
//! result uniquely.

pub mod date;
pub mod digits;
pub mod list;
pub mod order;
pub mod task;
