//! Script data: plain values that plugins keep in the world instead of in
//! Luau locals. Tables keep their keys sorted, so iteration and hashing are
//! deterministic.
use vstd::prelude::*;

verus! {

/// A table key: tables sort integer keys before string keys, each in their
/// own order.
#[derive(Clone, Debug, PartialEq, Eq, PartialOrd, Ord)]
pub enum Key {
    Int(i64),
    Str(String),
}

} // verus!
