//! An in-memory key-value store: a typed value model with nested maps, a
//! keyspace with a cap on its number of keys, the commands that act on it,
//! and the framed binary encoding that clients and servers share.
use vstd::prelude::*;

pub mod codec;
pub mod command;
pub mod config;
pub mod connection;
pub mod keyspace;
pub mod value;

verus! {

} // verus!
