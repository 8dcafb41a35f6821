//! A small hierarchical key-value store.
//!
//! A key is a sequence of components, such as `work.team.git`, and leads through a tree:
//! a store maps one component to a node, and a node is a value or a nested store. The
//! library has the keys, the store with its recursive operations, and the text form in
//! which a store is kept in a file; and it proves what it says of them.
//!
//! - [`component`] says what a type must offer to be a value or a part of a key, and
//!   offers it for `String` and `usize`; [`text`], [`decimal`] and [`order`] are under it.
//! - [`key`] has the keys, [`key_order`] their comparison operators.
//! - [`model`] is the mathematical model of a store, in which all contracts are stated.
//! - [`node`] and [`database`] have the store itself.
//! - [`format`] reads and writes the text form.
//! - [`session`] understands the commands of an interactive session.
//! - [`laws`], [`rebuild`] and [`round_trip`] state and prove what holds of every key and
//!   every store.
//! - [`error`] has the errors.

pub mod text;
pub mod decimal;
pub mod order;
pub mod component;
pub mod error;
pub mod key;
pub mod key_order;
pub mod model;
pub mod node;
pub mod database;
pub mod format;
pub mod session;
pub mod laws;
pub mod rebuild;
pub mod round_trip;
