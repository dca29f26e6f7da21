//! An embeddable, transactional document database core.
//!
//! Collections of typed objects are stored in an ordered key-value
//! substrate; secondary indexes map order-preserving key encodings to
//! object ids. All access happens inside a transaction that latches
//! itself inactive on the first failed mutation.

pub mod codec;
pub mod error;
pub mod index;
pub mod instance;
pub mod keys;
pub mod query;
pub mod txn;
pub mod value;
pub mod watcher;

use vstd::prelude::*;

verus! {

/// The aggregation operations a query can compute over a property.
#[derive(Copy, Clone, Eq, PartialEq, Debug, Structural)]
pub enum Aggregation {
    Count,
    IsEmpty,
    Min,
    Max,
    Sum,
    Average,
}

} // verus!
