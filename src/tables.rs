//! The pending request table and the domain subscription index, kept in
//! compactmap's `CompactMap` and multimap's `MultiMap`.
use vstd::prelude::*;
use compactmap::CompactMap;
use multimap::MultiMap;
use crate::request::SimplifiedRequest;

verus! {

#[verifier::external_type_specification]
#[verifier::external_body]
#[verifier::reject_recursive_types(V)]
pub struct ExCompactMap<V>(CompactMap<V>);

#[verifier::external_type_specification]
#[verifier::external_body]
#[verifier::reject_recursive_types(K)]
#[verifier::reject_recursive_types(V)]
#[verifier::reject_recursive_types(S)]
pub struct ExMultiMap<K, V, S>(MultiMap<K, V, S>);

/// The live requests of a pending table, by token.
pub uninterp spec fn pending_requests(m: CompactMap<SimplifiedRequest>) -> Map<usize, SimplifiedRequest>;

/// The token lists of a subscription index, by domain name.
pub uninterp spec fn subscription_lists(m: MultiMap<String, usize>) -> Map<Seq<char>, Seq<usize>>;

/// Relies on CompactMap::new: an empty map.
#[verifier::external_body]
pub(crate) fn pending_new() -> (r: CompactMap<SimplifiedRequest>)
    ensures
        pending_requests(r) =~= Map::empty(),
{
    CompactMap::new()
}

/// Relies on CompactMap::insert: the value is stored under a token that was
/// not live, which is returned.
#[verifier::external_body]
pub(crate) fn pending_insert(m: &mut CompactMap<SimplifiedRequest>, v: SimplifiedRequest) -> (k: usize)
    ensures
        !pending_requests(*old(m)).contains_key(k),
        pending_requests(*final(m)) == pending_requests(*old(m)).insert(k, v),
{
    m.insert(v)
}

/// Relies on CompactMap::get: the value stored under the token, if live.
#[verifier::external_body]
pub(crate) fn pending_get(m: &CompactMap<SimplifiedRequest>, k: usize) -> (r: Option<&SimplifiedRequest>)
    ensures
        match r {
            Some(v) => pending_requests(*m).contains_key(k) && *v == pending_requests(*m)[k],
            None => !pending_requests(*m).contains_key(k),
        },
{
    m.get(k)
}

/// Relies on CompactMap::remove: the token is freed and its value returned.
#[verifier::external_body]
pub(crate) fn pending_remove(m: &mut CompactMap<SimplifiedRequest>, k: usize) -> (r: Option<SimplifiedRequest>)
    ensures
        pending_requests(*final(m)) == pending_requests(*old(m)).remove(k),
        match r {
            Some(v) => pending_requests(*old(m)).contains_key(k) && v == pending_requests(*old(m))[k],
            None => !pending_requests(*old(m)).contains_key(k),
        },
{
    m.remove(k)
}

/// Relies on MultiMap::new: an empty index.
#[verifier::external_body]
pub(crate) fn subscriptions_new() -> (r: MultiMap<String, usize>)
    ensures
        subscription_lists(r) =~= Map::empty(),
{
    MultiMap::new()
}

/// Relies on MultiMap::get_vec: the list stored under the key, if any.
#[verifier::external_body]
pub(crate) fn subscriptions_get<'a>(m: &'a MultiMap<String, usize>, k: &str) -> (r: Option<&'a Vec<usize>>)
    ensures
        match r {
            Some(v) => subscription_lists(*m).contains_key(k@) && v@ == subscription_lists(*m)[k@],
            None => !subscription_lists(*m).contains_key(k@),
        },
{
    m.get_vec(k)
}

/// The list of `m` under `k` with `v` appended, or `[v]` for a new key.
pub open spec fn appended(m: Map<Seq<char>, Seq<usize>>, k: Seq<char>, v: usize) -> Map<Seq<char>, Seq<usize>> {
    if m.contains_key(k) {
        m.insert(k, m[k].push(v))
    } else {
        m.insert(k, seq![v])
    }
}

/// Relies on MultiMap::insert: the value is pushed onto the key's list.
#[verifier::external_body]
pub(crate) fn subscriptions_insert(m: &mut MultiMap<String, usize>, k: String, v: usize)
    ensures
        subscription_lists(*final(m)) == appended(subscription_lists(*old(m)), k@, v),
{
    m.insert(k, v)
}

/// Relies on MultiMap::remove: the key's list is taken out and returned.
#[verifier::external_body]
pub(crate) fn subscriptions_remove(m: &mut MultiMap<String, usize>, k: &str) -> (r: Option<Vec<usize>>)
    ensures
        subscription_lists(*final(m)) == subscription_lists(*old(m)).remove(k@),
        match r {
            Some(v) => subscription_lists(*old(m)).contains_key(k@) && v@ == subscription_lists(*old(m))[k@],
            None => !subscription_lists(*old(m)).contains_key(k@),
        },
{
    m.remove(k)
}

/// Relies on MultiMap::entry and Entry::or_insert_vec: the list is stored
/// under the key unless the key already has one.
#[verifier::external_body]
pub(crate) fn subscriptions_or_insert_vec(m: &mut MultiMap<String, usize>, k: String, v: Vec<usize>)
    ensures
        subscription_lists(*final(m)) == if subscription_lists(*old(m)).contains_key(k@) {
            subscription_lists(*old(m))
        } else {
            subscription_lists(*old(m)).insert(k@, v@)
        },
{
    m.entry(k).or_insert_vec(v);
}

} // verus!
