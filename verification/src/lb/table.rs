//! The ordered map that holds the endpoints of one partition.
//!
//! It is an `ordermap::OrderMap` from [`PeerKey`] to [`Endpoint`]. The
//! functions here are the only ones that touch it. Their contracts are not
//! proved: they restate, over [`endpoint_entries`], what the `ordermap`
//! crate does.
use super::endpoint::Endpoint;
use super::PeerKey;
use ordermap::OrderMap;
use std::collections::VecDeque;
use vstd::prelude::*;

verus! {

#[verifier::external_type_specification]
#[verifier::external_body]
#[verifier::reject_recursive_types(K)]
#[verifier::reject_recursive_types(V)]
#[verifier::reject_recursive_types(S)]
pub struct ExOrderMap<K, V, S>(OrderMap<K, V, S>);

/// The key-value pairs of a map of endpoints, in the map's order.
pub uninterp spec fn endpoint_entries(m: OrderMap<PeerKey, Endpoint>) -> Seq<(PeerKey, Endpoint)>;

/// Whether some pair of `s` has the key `k`.
pub open spec fn has_key(s: Seq<(PeerKey, Endpoint)>, k: PeerKey) -> bool {
    exists|i: int| 0 <= i < s.len() && (#[trigger] s[i]).0 == k
}

/// `OrderMap::default`: a map with no pairs.
#[verifier::external_body]
pub(crate) fn endpoints_new() -> (m: OrderMap<PeerKey, Endpoint>)
    ensures
        endpoint_entries(m) == Seq::<(PeerKey, Endpoint)>::empty(),
{
    OrderMap::default()
}

/// `OrderMap::len`: the number of pairs.
#[verifier::external_body]
pub(crate) fn endpoints_len(m: &OrderMap<PeerKey, Endpoint>) -> (n: usize)
    ensures
        n == endpoint_entries(*m).len(),
{
    m.len()
}

/// `OrderMap::insert`. Where a pair with this key exists, its value is
/// replaced in place and the old value returned; otherwise the new pair
/// becomes the last one.
#[verifier::external_body]
pub(crate) fn endpoints_insert(
    m: &mut OrderMap<PeerKey, Endpoint>,
    key: PeerKey,
    value: Endpoint,
) -> (prev: Option<Endpoint>)
    ensures
        match prev {
            Some(p) => exists|i: int|
                0 <= i < endpoint_entries(*old(m)).len() && (#[trigger] endpoint_entries(
                    *old(m),
                )[i]) == (key, p) && endpoint_entries(*final(m)) == endpoint_entries(
                    *old(m),
                ).update(i, (key, value)),
            None => !has_key(endpoint_entries(*old(m)), key) && endpoint_entries(*final(m))
                == endpoint_entries(*old(m)).push((key, value)),
        },
{
    m.insert(key, value)
}

/// `OrderMap::get_pair_index`: the position of the pair with this key, if
/// there is one.
#[verifier::external_body]
pub(crate) fn endpoints_index_of(m: &OrderMap<PeerKey, Endpoint>, key: PeerKey) -> (found: Option<
    usize,
>)
    ensures
        match found {
            Some(i) => i < endpoint_entries(*m).len() && endpoint_entries(*m)[i as int].0 == key,
            None => !has_key(endpoint_entries(*m), key),
        },
{
    m.get_pair_index(&key).map(|found| found.0)
}

/// `OrderMap::get_index`: the value of the pair at position `i`.
#[verifier::external_body]
pub(crate) fn endpoint_at(m: &OrderMap<PeerKey, Endpoint>, i: usize) -> (ep: &Endpoint)
    requires
        i < endpoint_entries(*m).len(),
    ensures
        *ep == endpoint_entries(*m)[i as int].1,
{
    m.get_index(i).unwrap().1
}

/// `OrderMap::get_index_mut`: the value of the pair at position `i`, to be
/// changed in place. Its key and the other pairs stay as they are.
#[verifier::external_body]
pub(crate) fn endpoint_at_mut(m: &mut OrderMap<PeerKey, Endpoint>, i: usize) -> (ep: &mut Endpoint)
    requires
        i < endpoint_entries(*old(m)).len(),
    ensures
        *ep == endpoint_entries(*old(m))[i as int].1,
        endpoint_entries(*final(m)) == endpoint_entries(*old(m)).update(
            i as int,
            (endpoint_entries(*old(m))[i as int].0, *final(ep)),
        ),
{
    m.get_index_mut(i).unwrap().1
}

/// `OrderMap::drain`: takes every pair out of the map, in the map's order.
#[verifier::external_body]
pub(crate) fn endpoints_drain(m: &mut OrderMap<PeerKey, Endpoint>) -> (out: VecDeque<
    (PeerKey, Endpoint),
>)
    ensures
        out@ == endpoint_entries(*old(m)),
        endpoint_entries(*final(m)) == Seq::<(PeerKey, Endpoint)>::empty(),
{
    m.drain(..).collect()
}

} // verus!
