//! Declarations of the outside types that the library holds, and the buffer operations that more
//! than one module calls.

use bytes::{Bytes, BytesMut};
use std::sync::Arc;
use vstd::prelude::*;

verus! {

/// `quick_cache`'s concurrent cache.
#[verifier::external_type_specification]
#[verifier::external_body]
#[verifier::reject_recursive_types(Key)]
#[verifier::reject_recursive_types(Val)]
#[verifier::reject_recursive_types(We)]
#[verifier::reject_recursive_types(B)]
#[verifier::reject_recursive_types(L)]
pub struct ExQuickCache<Key, Val, We, B, L>(quick_cache::sync::Cache<Key, Val, We, B, L>);

/// `quick_cache`'s weighter that gives every entry the weight one.
#[verifier::external_type_specification]
#[verifier::external_body]
pub struct ExUnitWeighter(quick_cache::UnitWeighter);

/// `quick_cache`'s lifecycle that does nothing.
#[verifier::external_type_specification]
#[verifier::external_body]
#[verifier::reject_recursive_types(Key)]
#[verifier::reject_recursive_types(Val)]
pub struct ExDefaultLifecycle<Key, Val>(quick_cache::sync::DefaultLifecycle<Key, Val>);

/// `rustc_hash`'s unseeded hasher.
#[verifier::external_type_specification]
#[verifier::external_body]
pub struct ExFxBuildHasher(rustc_hash::FxBuildHasher);

/// `moka`'s synchronous cache.
#[verifier::external_type_specification]
#[verifier::external_body]
#[verifier::reject_recursive_types(K)]
#[verifier::reject_recursive_types(V)]
#[verifier::reject_recursive_types(S)]
pub struct ExMokaCache<K, V, S>(moka::sync::Cache<K, V, S>);

/// `dashmap`'s concurrent map.
#[verifier::external_type_specification]
#[verifier::external_body]
#[verifier::reject_recursive_types(K)]
#[verifier::reject_recursive_types(V)]
#[verifier::reject_recursive_types(S)]
pub struct ExDashMap<K, V, S>(dashmap::DashMap<K, V, S>);

/// `bytes`' growable buffer.
#[verifier::external_type_specification]
#[verifier::external_body]
pub struct ExBytesMut(bytes::BytesMut);

/// `bytes`' shared byte string.
#[verifier::external_type_specification]
#[verifier::external_body]
pub struct ExBytes(bytes::Bytes);

/// The bytes written into a buffer and not yet taken out.
pub uninterp spec fn held_bytes(buf: bytes::BytesMut) -> Seq<u8>;

/// The bytes of a shared byte string.
pub uninterp spec fn shared_bytes(bytes: bytes::Bytes) -> Seq<u8>;

/// `bytes::BytesMut::with_capacity`: an empty buffer. A capacity that no allocation can have
/// would panic.
#[verifier::external_body]
pub(crate) fn new_buffer(capacity: usize) -> (r: BytesMut)
    requires
        capacity <= isize::MAX,
    ensures
        held_bytes(r) == Seq::<u8>::empty(),
{
    BytesMut::with_capacity(capacity)
}

/// `bytes::BytesMut::extend_from_slice`: appends the bytes. A length that no allocation can have
/// would panic.
#[verifier::external_body]
pub(crate) fn extend_buffer(buf: &mut BytesMut, more: &[u8])
    requires
        held_bytes(*old(buf)).len() + more@.len() <= isize::MAX,
    ensures
        held_bytes(*final(buf)) == held_bytes(*old(buf)) + more@,
{
    buf.extend_from_slice(more);
}

/// `bytes::BytesMut::clear`: the buffer is empty.
#[verifier::external_body]
pub(crate) fn clear_buffer(buf: &mut BytesMut)
    ensures
        held_bytes(*final(buf)) == Seq::<u8>::empty(),
{
    buf.clear();
}

/// `bytes::BytesMut` read as a slice.
#[verifier::external_body]
pub(crate) fn buffer_slice(buf: &BytesMut) -> (r: &[u8])
    ensures
        r@ == held_bytes(*buf),
{
    buf
}

/// `bytes::BytesMut::split`: everything written so far, and the buffer empty.
#[verifier::external_body]
pub(crate) fn split_buffer(buf: &mut BytesMut) -> (r: BytesMut)
    ensures
        held_bytes(r) == held_bytes(*old(buf)),
        held_bytes(*final(buf)) == Seq::<u8>::empty(),
{
    buf.split()
}

/// `bytes::BytesMut::freeze`: the same bytes, shared.
#[verifier::external_body]
pub(crate) fn freeze_buffer(buf: BytesMut) -> (r: Bytes)
    ensures
        shared_bytes(r) == held_bytes(buf),
{
    buf.freeze()
}

/// `bytes::BytesMut::capacity`: what the buffer can hold without growing. How much an allocation
/// gave is left open.
#[verifier::external_body]
pub(crate) fn buffer_capacity(buf: &BytesMut) -> usize {
    buf.capacity()
}

/// `Arc::clone`: a second owner of the same value.
#[verifier::external_body]
pub(crate) fn share<T>(value: &Arc<T>) -> (r: Arc<T>)
    ensures
        r == *value,
{
    Arc::clone(value)
}

} // verus!
