//! Where bundles are kept.

use std::sync::Arc;
use vstd::prelude::*;

pub mod recency;
pub mod shard;
pub mod naming;
pub mod mem_cache;
pub mod mem_model;
pub mod mem_laws;
pub mod store_laws;
pub mod bundle_mem;
pub mod cached;

verus! {

/// The bytes of a bundle, shared between those that hold it.
pub type Bytes = Arc<Vec<u8>>;

/// The value of bytes that may be there.
pub open spec fn value_if(value: Option<Bytes>) -> Option<Seq<u8>> {
    match value {
        Some(bytes) => Some(bytes@),
        None => None,
    }
}

/// Bytes that are there have the value that they hold.
pub proof fn law_value_if_there(value: Option<Bytes>)
    ensures
        value is Some <==> value_if(value) is Some,
        value matches Some(bytes) ==> value_if(value) == Some(bytes@),
{
}

} // verus!
