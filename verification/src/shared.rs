//! Shared-ownership helpers for the persistent structures.
use std::sync::Arc;
use vstd::prelude::*;

verus! {

/// Calls `Arc::clone`: the returned pointer shares the same allocation, so
/// the pointee it denotes is the very value the argument denotes.
#[verifier::external_body]
pub(crate) fn share<T>(value: &Arc<T>) -> (shared: Arc<T>)
    ensures
        shared == *value,
{
    Arc::clone(value)
}

/// Shares an optional pointer, keeping `None` as `None`.
pub fn share_opt<T>(value: &Option<Arc<T>>) -> (shared: Option<Arc<T>>)
    ensures
        shared == *value,
{
    match value {
        Some(inner) => Some(share(inner)),
        None => None,
    }
}

/// Copies a byte vector element by element.
pub fn copy_bytes(bytes: &Vec<u8>) -> (copy: Vec<u8>)
    ensures
        copy@ == bytes@,
{
    let mut copy: Vec<u8> = Vec::with_capacity(bytes.len());
    let mut index: usize = 0;
    while index < bytes.len()
        invariant
            index <= bytes.len(),
            copy@ == bytes@.subrange(0, index as int),
        decreases bytes.len() - index,
    {
        copy.push(bytes[index]);
        index += 1;
    }
    assert(copy@ == bytes@);
    copy
}

} // verus!
