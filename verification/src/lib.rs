//! An ordered-collection layer for a persistent key-value store: logical
//! lists layered on top of a flat key-value substrate.  A list is identified
//! by an opaque binary list key and holds items, each identified by an opaque
//! binary item key within the list; items carry binary values and keep their
//! insertion order.
use vstd::prelude::*;

pub mod hashing;
pub mod kv;
pub mod laws;
pub mod layout;
pub mod lists;
pub mod model;
pub mod steps;

pub use layout::List;
pub use lists::{CandyStore, ListCompactionParams, ListIterator};

verus! {

/// A single-byte namespace tag marking list-descriptor rows.
pub const LIST_NAMESPACE: u8 = 1;

/// A single-byte namespace tag marking item rows.
pub const ITEM_NAMESPACE: u8 = 2;

/// A single-byte namespace tag marking chain rows.
pub const CHAIN_NAMESPACE: u8 = 3;

/// A single-byte namespace tag reserved for the typed wrappers built on top
/// of the raw store.
pub const TYPED_NAMESPACE: u8 = 4;

/// A key-value pair handed back by lookups and iteration.
pub type KVPair = (Vec<u8>, Vec<u8>);

/// Outcome of an unconditional insert.
#[derive(Debug, PartialEq, Eq)]
pub enum SetStatus {
    /// The key did not exist before.
    CreatedNew,
    /// The key existed; the previous value is carried here.
    PrevValue(Vec<u8>),
}

/// Outcome of an update that never creates.
#[derive(Debug, PartialEq, Eq)]
pub enum ReplaceStatus {
    /// The key did not exist, so nothing was written.
    DoesNotExist,
    /// The key existed; the previous value is carried here.
    PrevValue(Vec<u8>),
    /// The caller's expected value did not match; the current value is
    /// carried here and nothing was written.
    WrongValue(Vec<u8>),
}

/// Outcome of an insert that never overwrites.
#[derive(Debug, PartialEq, Eq)]
pub enum GetOrCreateStatus {
    /// The key did not exist; the default value was written and is carried
    /// here.
    CreatedNew(Vec<u8>),
    /// The key existed; its current value is carried here.
    ExistingValue(Vec<u8>),
}

impl GetOrCreateStatus {
    /// The value now stored under the key, whichever way it got there.
    pub fn value(self) -> (r: Vec<u8>)
        ensures
            (match self {
                GetOrCreateStatus::CreatedNew(v) => r == v,
                GetOrCreateStatus::ExistingValue(v) => r == v,
            }),
    {
        match self {
            GetOrCreateStatus::CreatedNew(v) => v,
            GetOrCreateStatus::ExistingValue(v) => v,
        }
    }
}

/// An error surfaced by a list operation.  Structural damage is reported
/// rather than repaired; running out of chain indices is reported rather
/// than wrapping around.
#[derive(Clone, Copy, Debug, PartialEq, Eq, Structural)]
pub enum CandyError {
    /// A structural invariant did not hold: a row that two lists' keys both
    /// fingerprint to, or an exhausted 64-bit index space.
    Corruption,
}

} // verus!
