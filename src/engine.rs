//! The engine: one value holding the store, the network, and the tables of
//! pending requests, subscriptions and pass-through queries, with the client
//! path and the upstream reply pipeline.
use vstd::prelude::*;
use vstd::slice::slice_subrange;
use std::collections::HashMap;
use compactmap::CompactMap;
use multimap::MultiMap;
use crate::{CacheError, Database, Network, ReceiveResult};
use crate::record::{CacheEntry, merge_entry};
use crate::request::{ClientAddr, SimplifiedQuestion, SimplifiedRequest, is_normal, simplifies_to, simplify_questions};
use crate::answer::{
    TryAnswerRequestResult, answer_fold, answer_result, client_action, client_decision, is_settled,
    try_answer_request,
};
use crate::wire::{PacketModel, WirePacket, lower_packet, parsed_packet, read_packet};
use crate::upstream::{
    ResolvedAnswer, build_new_entries, candidates, dom_subscribed, has_key, get_cname_redirs, make_list_of_ips,
    CNAME_HOP_LIMIT, cname_map, has_hops, is_address_record, lemma_long_chain_refused, questions_subscribed, resolved_answers, resolved_view, token_matches,
};
use crate::tables::{
    appended, pending_get, pending_insert, pending_new, pending_remove, pending_requests,
    subscription_lists, subscriptions_get, subscriptions_insert, subscriptions_new,
    subscriptions_or_insert_vec, subscriptions_remove,
};

verus! {

broadcast use vstd::std_specs::hash::group_hash_axioms;

/// TTL settings, in seconds. Record TTLs are clamped into
/// `[min_ttl, max_ttl]` when served.
#[derive(Debug)]
pub struct Options {
    /// Age beyond which a negative answer is refreshed in the background.
    pub neg_ttl: u64,
    /// Upper TTL bound.
    pub max_ttl: u32,
    /// Lower TTL bound.
    pub min_ttl: u32,
}

impl Default for Options {
    fn default() -> (r: Options)
        ensures
            r.neg_ttl == 30,
            r.max_ttl == 0xFFFF_FFFF,
            r.min_ttl == 0,
    {
        Options { neg_ttl: 30, max_ttl: 0xFFFF_FFFF, min_ttl: 0 }
    }
}

/// Whether a pipeline stage lets processing go on.
#[derive(Debug, Clone, Copy, PartialEq, Eq, Structural)]
pub enum StepResult {
    /// Go on with the next stage.
    GoOn,
    /// Stop here; the datagram is dealt with.
    EarlyReturn,
}

/// Relies on SystemTime::elapsed, called on UNIX_EPOCH: the whole seconds
/// since the epoch, `None` when the clock reads earlier.
#[verifier::external_body]
fn unix_now() -> (r: Option<u64>) {
    std::time::UNIX_EPOCH.elapsed().ok().map(|d| d.as_secs())
}

/// Tokens appended under each question's name, in order.
pub open spec fn subscribed_all(subs: Map<Seq<char>, Seq<usize>>, qs: Seq<SimplifiedQuestion>, t: usize) -> Map<
    Seq<char>,
    Seq<usize>,
>
    decreases qs.len(),
{
    if qs.len() == 0 {
        subs
    } else {
        appended(subscribed_all(subs, qs.drop_last(), t), qs.last().dom@, t)
    }
}

/// Whether every resolved answer is for a name that a live request with
/// transaction id `id` subscribed to.
pub open spec fn answers_subscribed(
    pending: Map<usize, SimplifiedRequest>,
    subs: Map<Seq<char>, Seq<usize>>,
    rs: Seq<crate::upstream::ResolvedModel>,
    id: u16,
) -> bool {
    forall|i: int| 0 <= i < rs.len() ==> dom_subscribed(pending, subs, #[trigger] rs[i].dom, id)
}

/// Every request left in `new` was in `old`, unchanged.
pub open spec fn pending_kept(new: Map<usize, SimplifiedRequest>, old: Map<usize, SimplifiedRequest>) -> bool {
    forall|t: usize| #[trigger] new.contains_key(t) ==> old.contains_key(t) && new[t] == old[t]
}

/// Whether `k` is one of the first `n` names of `doms`.
pub open spec fn among(doms: Seq<String>, n: int, k: Seq<char>) -> bool {
    exists|j: int| 0 <= j < n && (#[trigger] doms[j])@ == k
}

/// The subscriptions of every name but the first `n` of `doms` are as in `old`.
pub open spec fn subscriptions_kept(
    new: Map<Seq<char>, Seq<usize>>,
    old: Map<Seq<char>, Seq<usize>>,
    doms: Seq<String>,
    n: int,
) -> bool {
    forall|k: Seq<char>|
        !among(doms, n, k) ==> (#[trigger] new.contains_key(k) == old.contains_key(k) && (new.contains_key(k)
            ==> new[k] == old[k]))
}

/// Every list of `new` is in `old`, holding only tokens of the old list.
pub open spec fn subscriptions_shrunk(new: Map<Seq<char>, Seq<usize>>, old: Map<Seq<char>, Seq<usize>>) -> bool {
    forall|k: Seq<char>| #[trigger] new.contains_key(k) ==> old.contains_key(k) && forall|x: usize|
        new[k].contains(x) ==> old[k].contains(x)
}

/// Whether `t` was subscribed under one of the first `n` names of `doms`.
pub open spec fn among_subscribers(subs: Map<Seq<char>, Seq<usize>>, doms: Seq<String>, n: int, t: usize) -> bool {
    exists|j: int| 0 <= j < n && subs.contains_key((#[trigger] doms[j])@) && subs[doms[j]@].contains(t)
}

/// Every request that left the table was subscribed under one of the first
/// `n` names of `doms`.
pub open spec fn left_as_subscribers(
    new: Map<usize, SimplifiedRequest>,
    old: Map<usize, SimplifiedRequest>,
    subs: Map<Seq<char>, Seq<usize>>,
    doms: Seq<String>,
    n: int,
) -> bool {
    forall|t: usize| #[trigger] old.contains_key(t) && !new.contains_key(t) ==> among_subscribers(subs, doms, n, t)
}

proof fn lemma_left_as_subscribers_grow(
    new: Map<usize, SimplifiedRequest>,
    old: Map<usize, SimplifiedRequest>,
    subs: Map<Seq<char>, Seq<usize>>,
    doms: Seq<String>,
    n: int,
)
    requires
        left_as_subscribers(new, old, subs, doms, n),
    ensures
        left_as_subscribers(new, old, subs, doms, n + 1),
{
    assert forall|t: usize| #[trigger] old.contains_key(t) && !new.contains_key(t) implies among_subscribers(subs, doms, n + 1, t) by {
        let j = choose|j: int| 0 <= j < n && subs.contains_key((#[trigger] doms[j])@) && subs[doms[j]@].contains(t);
        assert(0 <= j < n + 1 && subs.contains_key(doms[j]@) && subs[doms[j]@].contains(t));
    }
}

/// No name of `doms` has a subscriber that is still pending.
pub open spec fn no_live_subscribers(
    pending: Map<usize, SimplifiedRequest>,
    subs: Map<Seq<char>, Seq<usize>>,
    doms: Seq<String>,
) -> bool {
    forall|i: int, t: usize|
        0 <= i < doms.len() && subs.contains_key(doms[i]@) && #[trigger] subs[doms[i]@].contains(t)
            ==> !pending.contains_key(t)
}

/// Every subscriber of the first `n` names of `doms` (in `old`) that is
/// still pending is still subscribed under that name (in `new`).
pub open spec fn still_subscribed(
    pending: Map<usize, SimplifiedRequest>,
    old: Map<Seq<char>, Seq<usize>>,
    new: Map<Seq<char>, Seq<usize>>,
    doms: Seq<String>,
    n: int,
) -> bool {
    forall|j: int, t: usize|
        0 <= j < n && old.contains_key(doms[j]@) && #[trigger] old[doms[j]@].contains(t) && pending.contains_key(t)
            ==> new.contains_key(doms[j]@) && new[doms[j]@].contains(t)
}

/// The tokens that the outcomes settle.
pub open spec fn settled_tokens(subs: Seq<usize>, outcomes: Seq<Option<bool>>) -> Set<usize> {
    Set::new(|t: usize| exists|k: int| 0 <= k < subs.len() && subs[k] == t && #[trigger] outcomes[k] == Some(true))
}

/// The tokens that the outcomes leave unsettled, in order.
pub open spec fn unsettled_tokens(subs: Seq<usize>, outcomes: Seq<Option<bool>>) -> Seq<usize>
    decreases subs.len(),
{
    if subs.len() == 0 || outcomes.len() < subs.len() {
        seq![]
    } else {
        let prev = unsettled_tokens(subs.drop_last(), outcomes.take(subs.len() - 1));
        if outcomes[subs.len() - 1] == Some(false) {
            prev.push(subs.last())
        } else {
            prev
        }
    }
}

/// When the read path settles every subscriber of a name (as it does for
/// coalesced requests that the new entry answers), the settle step removes
/// all of them from the pending table and leaves the name without a list.
pub proof fn lemma_all_settled_leave(subs: Seq<usize>, outcomes: Seq<Option<bool>>)
    requires
        subs.len() == outcomes.len(),
        forall|k: int| 0 <= k < outcomes.len() ==> #[trigger] outcomes[k] == Some(true),
    ensures
        unsettled_tokens(subs, outcomes).len() == 0,
        forall|k: int| 0 <= k < subs.len() ==> settled_tokens(subs, outcomes).contains(#[trigger] subs[k]),
    decreases subs.len(),
{
    if subs.len() > 0 {
        let n = subs.len() - 1;
        let o1 = outcomes.take(n);
        assert forall|k: int| 0 <= k < o1.len() implies #[trigger] o1[k] == Some(true) by {
            assert(o1[k] == outcomes[k]);
        }
        lemma_all_settled_leave(subs.drop_last(), o1);
        assert(outcomes[n] == Some(true));
    }
    assert forall|k: int| 0 <= k < subs.len() implies settled_tokens(subs, outcomes).contains(#[trigger] subs[k]) by {
        assert(outcomes[k] == Some(true));
    }
}

proof fn lemma_settled_step(subs: Seq<usize>, outcomes: Seq<Option<bool>>, k: int)
    requires
        0 <= k < subs.len(),
        subs.len() == outcomes.len(),
    ensures
        settled_tokens(subs.take(k + 1), outcomes.take(k + 1)) == if outcomes[k] == Some(true) {
            settled_tokens(subs.take(k), outcomes.take(k)).insert(subs[k])
        } else {
            settled_tokens(subs.take(k), outcomes.take(k))
        },
        unsettled_tokens(subs.take(k + 1), outcomes.take(k + 1)) == if outcomes[k] == Some(false) {
            unsettled_tokens(subs.take(k), outcomes.take(k)).push(subs[k])
        } else {
            unsettled_tokens(subs.take(k), outcomes.take(k))
        },
{
    let s1 = subs.take(k + 1);
    let o1 = outcomes.take(k + 1);
    assert(s1.drop_last() =~= subs.take(k));
    assert(o1.take(k) =~= outcomes.take(k));
    let a = settled_tokens(s1, o1);
    let b = if outcomes[k] == Some(true) {
        settled_tokens(subs.take(k), outcomes.take(k)).insert(subs[k])
    } else {
        settled_tokens(subs.take(k), outcomes.take(k))
    };
    assert forall|t: usize| a.contains(t) == b.contains(t) by {
        if a.contains(t) {
            let j = choose|j: int| 0 <= j < s1.len() && s1[j] == t && #[trigger] o1[j] == Some(true);
            if j < k {
                assert(subs.take(k)[j] == t && outcomes.take(k)[j] == Some(true));
            }
        }
        if settled_tokens(subs.take(k), outcomes.take(k)).contains(t) {
            let j = choose|j: int| 0 <= j < k && subs.take(k)[j] == t && #[trigger] outcomes.take(k)[j] == Some(true);
            assert(s1[j] == t && o1[j] == Some(true));
        }
        if outcomes[k] == Some(true) && t == subs[k] {
            assert(s1[k] == t && o1[k] == Some(true));
        }
    }
    assert(a =~= b);
}

proof fn lemma_unsettled_from(subs: Seq<usize>, outcomes: Seq<Option<bool>>)
    requires
        subs.len() == outcomes.len(),
    ensures
        forall|k: int| 0 <= k < subs.len() && outcomes[k] == Some(false) ==> unsettled_tokens(subs, outcomes).contains(
            #[trigger] subs[k],
        ),
        forall|x: usize| unsettled_tokens(subs, outcomes).contains(x) ==> subs.contains(x),
    decreases subs.len(),
{
    if subs.len() > 0 {
        let n = subs.len() - 1;
        let s1 = subs.drop_last();
        let o1 = outcomes.take(n);
        lemma_unsettled_from(s1, o1);
        let prev = unsettled_tokens(s1, o1);
        assert forall|k: int| 0 <= k < subs.len() && outcomes[k] == Some(false) implies unsettled_tokens(subs, outcomes).contains(
            #[trigger] subs[k],
        ) by {
            if k < n {
                assert(s1[k] == subs[k] && o1[k] == outcomes[k]);
                let w = choose|w: int| 0 <= w < prev.len() && prev[w] == subs[k];
                if outcomes[n] == Some(false) {
                    assert(prev.push(subs.last())[w] == subs[k]);
                }
            } else {
                assert(prev.push(subs.last())[prev.len() as int] == subs[k]);
            }
        }
        assert forall|x: usize| unsettled_tokens(subs, outcomes).contains(x) implies subs.contains(x) by {
            let u = unsettled_tokens(subs, outcomes);
            let w = choose|w: int| 0 <= w < u.len() && u[w] == x;
            if w < prev.len() {
                if outcomes[n] == Some(false) {
                    assert(u == prev.push(subs.last()));
                    assert(prev.push(subs.last())[w] == prev[w]);
                } else {
                    assert(u == prev);
                }
                assert(prev[w] == x);
                assert(prev.contains(x));
                assert(s1.contains(x));
                let v = choose|v: int| 0 <= v < s1.len() && s1[v] == x;
                assert(subs[v] == x);
            } else {
                assert(u == prev.push(subs.last()));
                assert(subs[n] == x);
            }
        }
    }
}

proof fn lemma_left_as_subscribers_mono(
    new: Map<usize, SimplifiedRequest>,
    old: Map<usize, SimplifiedRequest>,
    subs: Map<Seq<char>, Seq<usize>>,
    doms: Seq<String>,
    n: int,
    m: int,
)
    requires
        n <= m,
        left_as_subscribers(new, old, subs, doms, n),
    ensures
        left_as_subscribers(new, old, subs, doms, m),
{
    assert forall|t: usize| #[trigger] old.contains_key(t) && !new.contains_key(t) implies among_subscribers(subs, doms, m, t) by {
        let j = choose|j: int| 0 <= j < n && subs.contains_key((#[trigger] doms[j])@) && subs[doms[j]@].contains(t);
        assert(0 <= j < m && subs.contains_key(doms[j]@) && subs[doms[j]@].contains(t));
    }
}

proof fn lemma_subscriptions_kept_mono(
    new: Map<Seq<char>, Seq<usize>>,
    old: Map<Seq<char>, Seq<usize>>,
    doms: Seq<String>,
    n: int,
    m: int,
)
    requires
        n <= m,
        subscriptions_kept(new, old, doms, n),
    ensures
        subscriptions_kept(new, old, doms, m),
{
    assert forall|k: Seq<char>| !among(doms, m, k) implies (#[trigger] new.contains_key(k) == old.contains_key(k)
        && (new.contains_key(k) ==> new[k] == old[k])) by {
        if among(doms, n, k) {
            let j = choose|j: int| 0 <= j < n && (#[trigger] doms[j])@ == k;
            assert(0 <= j < m && doms[j]@ == k);
        }
    }
}

proof fn lemma_subscriptions_kept_step(
    new: Map<Seq<char>, Seq<usize>>,
    mid: Map<Seq<char>, Seq<usize>>,
    old: Map<Seq<char>, Seq<usize>>,
    doms: Seq<String>,
    i: int,
)
    requires
        0 <= i < doms.len(),
        subscriptions_kept(mid, old, doms, i),
        forall|k: Seq<char>|
            k != doms[i]@ ==> (#[trigger] new.contains_key(k) == mid.contains_key(k) && (new.contains_key(k)
                ==> new[k] == mid[k])),
    ensures
        subscriptions_kept(new, old, doms, i + 1),
{
    assert forall|k: Seq<char>| !among(doms, i + 1, k) implies (#[trigger] new.contains_key(k) == old.contains_key(k)
        && (new.contains_key(k) ==> new[k] == old[k])) by {
        if doms[i]@ == k {
            assert(0 <= i < i + 1 && doms[i]@ == k);
        }
        if among(doms, i, k) {
            let j = choose|j: int| 0 <= j < i && (#[trigger] doms[j])@ == k;
            assert(0 <= j < i + 1 && doms[j]@ == k);
        }
        assert(mid.contains_key(k) == old.contains_key(k));
        assert(new.contains_key(k) == mid.contains_key(k));
    }
}

/// Whether the pipeline drops a reply, with the tables as given: an echoed
/// question nobody with the reply's id asked, an address answer whose CNAME
/// chain reaches the hop limit, or an address answer that resolves to a
/// name nobody with the reply's id asked.
pub open spec fn upstream_rejects(
    pending: Map<usize, SimplifiedRequest>,
    subs: Map<Seq<char>, Seq<usize>>,
    m: PacketModel,
) -> bool {
    !questions_subscribed(pending, subs, m) || match resolved_answers(m.answers, cname_map(m.answers)) {
        None => true,
        Some(rs) => !answers_subscribed(pending, subs, rs, m.id),
    }
}

/// Spoofed replies are dropped: a reply from upstream that echoes at least
/// one question, and whose transaction id matches no live request subscribed
/// under any of its questions' names, is rejected, so nothing is stored and
/// no client is answered.
pub proof fn lemma_spoofed_reply_rejected(
    pending: Map<usize, SimplifiedRequest>,
    subs: Map<Seq<char>, Seq<usize>>,
    m: PacketModel,
)
    requires
        m.questions.len() > 0,
        forall|i: int|
            0 <= i < m.questions.len() ==> !dom_subscribed(pending, subs, #[trigger] m.questions[i].qname, m.id),
    ensures
        upstream_rejects(pending, subs, m),
{
    assert(!dom_subscribed(pending, subs, m.questions[0].qname, m.id));
}

/// CNAME chains are bounded: a reply with an address answer whose owner
/// name starts a chain of at least the hop limit of CNAME links (ten) is
/// rejected, so nothing is stored and no client is answered.
pub proof fn lemma_long_cname_chain_rejected(
    pending: Map<usize, SimplifiedRequest>,
    subs: Map<Seq<char>, Seq<usize>>,
    m: PacketModel,
    i: int,
)
    requires
        0 <= i < m.answers.len(),
        is_address_record(m.answers[i]),
        has_hops(cname_map(m.answers), m.answers[i].name, CNAME_HOP_LIMIT as nat),
    ensures
        upstream_rejects(pending, subs, m),
{
    lemma_long_chain_refused(m.answers, i);
}

/// `after` is `before` with request `t` registered for the query `m` from
/// `src`: the simplified questions of `m`, its id and client, subscribed
/// under each question's name.
pub open spec fn registered_request<DB: Database, N: Network>(
    before: DnsCache<DB, N>,
    after: DnsCache<DB, N>,
    t: usize,
    m: PacketModel,
    src: ClientAddr,
) -> bool {
    let r = after.pending()[t];
    &&& !before.pending().contains_key(t)
    &&& after.pending() == before.pending().insert(t, r)
    &&& r.id == m.id
    &&& r.clientid == src
    &&& r.q@.len() == m.questions.len()
    &&& forall|i: int| 0 <= i < m.questions.len() ==> simplifies_to(#[trigger] r.q@[i], m.questions[i])
    &&& after.subscriptions() == subscribed_all(before.subscriptions(), r.q@, t)
}

/// `after` keeps the TTL settings of `before`.
pub open spec fn same_settings<DB: Database, N: Network>(before: DnsCache<DB, N>, after: DnsCache<DB, N>) -> bool {
    &&& after.neg_ttl() == before.neg_ttl()
    &&& after.max_ttl() == before.max_ttl()
    &&& after.min_ttl() == before.min_ttl()
}

/// How the client path changes the engine for datagram `b` from `src`:
/// nothing for a malformed one; a pass-through query is remembered by id;
/// otherwise the request is answered from cache, or registered.
pub open spec fn client_transition<DB: Database, N: Network>(
    before: DnsCache<DB, N>,
    after: DnsCache<DB, N>,
    b: Seq<u8>,
    src: ClientAddr,
    ok: bool,
) -> bool {
    &&& same_settings(before, after)
    &&& parsed_packet(b) is None ==> after == before
    &&& parsed_packet(b) is Some ==> ({
        let m = lower_packet(parsed_packet(b)->Some_0);
        if exists|i: int| 0 <= i < m.questions.len() && !is_normal(#[trigger] m.questions[i]) {
            &&& after.forwards() == before.forwards().insert(m.id, src)
            &&& after.pending() == before.pending()
            &&& after.subscriptions() == before.subscriptions()
            &&& after.store() == before.store()
        } else {
            &&& after.forwards() == before.forwards()
            &&& after.pending() == before.pending() && after.subscriptions() == before.subscriptions() && (ok
                ==> exists|qs: Seq<SimplifiedQuestion>, es: Seq<Option<CacheEntry>>, now: u64|
                simplified_from(qs, m) && es.len() == qs.len() && #[trigger] client_read_action(
                before,
                qs,
                es,
                now,
            ) is None) || exists|t: usize, es: Seq<Option<CacheEntry>>, now: u64|
                registered_request(before, after, t, m, src) && es.len() == after.pending()[t].q@.len()
                    && #[trigger] client_read_action(before, after.pending()[t].q@, es, now) == Some(
                    after.pending()[t].inhibit_send,
                )
        }
    })
}

/// The questions of `m` in simplified form.
pub open spec fn simplified_from(qs: Seq<SimplifiedQuestion>, m: PacketModel) -> bool {
    qs.len() == m.questions.len() && forall|i: int| 0 <= i < qs.len() ==> simplifies_to(#[trigger] qs[i], m.questions[i])
}

/// What the client path decides for questions `qs` when the store gives
/// `es` and the clock reads `now`: see [`client_action`].
pub open spec fn client_read_action<DB: Database, N: Network>(
    e: DnsCache<DB, N>,
    qs: Seq<SimplifiedQuestion>,
    es: Seq<Option<CacheEntry>>,
    now: u64,
) -> Option<bool> {
    client_action(answer_result(answer_fold(qs, es, now, e.max_ttl(), e.min_ttl())), e.neg_ttl())
}

/// How the upstream pipeline changes the engine for datagram `b`: nothing
/// for a malformed or rejected one; a reply to a pass-through query
/// consumes its entry; an accepted reply only settles pending requests.
pub open spec fn upstream_transition<DB: Database, N: Network>(
    before: DnsCache<DB, N>,
    after: DnsCache<DB, N>,
    b: Seq<u8>,
    ok: bool,
) -> bool {
    &&& same_settings(before, after)
    &&& parsed_packet(b) is None ==> after == before
    &&& parsed_packet(b) is Some ==> ({
        let m = lower_packet(parsed_packet(b)->Some_0);
        if before.forwards().contains_key(m.id) {
            &&& after.forwards() == before.forwards().remove(m.id)
            &&& after.pending() == before.pending()
            &&& after.subscriptions() == before.subscriptions()
            &&& after.store() == before.store()
        } else if upstream_rejects(before.pending(), before.subscriptions(), m) {
            &&& after.forwards() == before.forwards()
            &&& after.pending() == before.pending()
            &&& after.subscriptions() == before.subscriptions()
            &&& after.store() == before.store()
        } else {
            &&& after.forwards() == before.forwards()
            &&& pending_kept(after.pending(), before.pending())
            &&& settled_only_subscribers(after.pending(), before.pending(), before.subscriptions())
            &&& subscriptions_shrunk(after.subscriptions(), before.subscriptions())
            &&& exists|now: u64| #[trigger] accepted_effect(before, after, m, now, ok)
        }
    })
}

/// What an accepted reply does to the subscriptions, its candidate entries
/// taken at `now`: names without a candidate keep their lists, and (when
/// the step succeeded) every subscriber of a candidate name that is still
/// pending is still subscribed under it.
pub open spec fn accepted_effect<DB: Database, N: Network>(
    before: DnsCache<DB, N>,
    after: DnsCache<DB, N>,
    m: PacketModel,
    now: u64,
    ok: bool,
) -> bool {
    let c = candidates(m, resolved_answers(m.answers, cname_map(m.answers))->Some_0, now);
    &&& forall|k: Seq<char>|
        !c.contains_key(k) ==> (#[trigger] after.subscriptions().contains_key(k) == before.subscriptions().contains_key(k)
            && (after.subscriptions().contains_key(k) ==> after.subscriptions()[k] == before.subscriptions()[k]))
    &&& ok ==> forall|k: Seq<char>, t: usize|
        c.contains_key(k) && before.subscriptions().contains_key(k) && #[trigger] before.subscriptions()[k].contains(t)
            && after.pending().contains_key(t) ==> after.subscriptions().contains_key(k)
            && after.subscriptions()[k].contains(t)
}

/// Every request that left the table was subscribed to some name.
pub open spec fn settled_only_subscribers(
    new: Map<usize, SimplifiedRequest>,
    old: Map<usize, SimplifiedRequest>,
    subs: Map<Seq<char>, Seq<usize>>,
) -> bool {
    forall|t: usize| #[trigger] old.contains_key(t) && !new.contains_key(t) ==> exists|d: Seq<char>|
        #[trigger] subs.contains_key(d) && subs[d].contains(t)
}

/// One received datagram was processed, from a client or from upstream,
/// or nothing changed.
pub open spec fn served_one<DB: Database, N: Network>(before: DnsCache<DB, N>, after: DnsCache<DB, N>) -> bool {
    ||| after == before
    ||| exists|b: Seq<u8>, c: ClientAddr, ok: bool| #[trigger] client_transition(before, after, b, c, ok)
    ||| exists|b: Seq<u8>, ok: bool| #[trigger] upstream_transition(before, after, b, ok)
}

/// DNS proxy with forced caching.
pub struct DnsCache<DB: Database, N: Network> {
    db: DB,
    net: N,
    r2a: HashMap<u16, ClientAddr>,
    opts: Options,
    unreplied_requests: CompactMap<SimplifiedRequest>,
    dom_update_subscriptions: MultiMap<String, usize>,
}

impl<DB: Database, N: Network> DnsCache<DB, N> {
    /// Pass-through queries awaiting their reply: client by transaction id.
    pub closed spec fn forwards(&self) -> Map<u16, ClientAddr> {
        self.r2a@
    }

    /// Requests awaiting an upstream answer, by token.
    pub closed spec fn pending(&self) -> Map<usize, SimplifiedRequest> {
        pending_requests(self.unreplied_requests)
    }

    /// Tokens subscribed to each domain's update.
    pub closed spec fn subscriptions(&self) -> Map<Seq<char>, Seq<usize>> {
        subscription_lists(self.dom_update_subscriptions)
    }

    /// The store.
    pub closed spec fn store(&self) -> DB {
        self.db
    }

    /// Age beyond which a negative answer is refreshed.
    pub closed spec fn neg_ttl(&self) -> u64 {
        self.opts.neg_ttl
    }

    /// Upper TTL bound.
    pub closed spec fn max_ttl(&self) -> u32 {
        self.opts.max_ttl
    }

    /// Lower TTL bound.
    pub closed spec fn min_ttl(&self) -> u32 {
        self.opts.min_ttl
    }

    /// Creates an engine with empty tables.
    pub fn new(db: DB, net: N, opts: Options) -> (r: Self)
        ensures
            r.forwards() == Map::<u16, ClientAddr>::empty(),
            r.pending() == Map::<usize, SimplifiedRequest>::empty(),
            r.subscriptions() == Map::<Seq<char>, Seq<usize>>::empty(),
            r.store() == db,
            r.neg_ttl() == opts.neg_ttl,
            r.max_ttl() == opts.max_ttl,
            r.min_ttl() == opts.min_ttl,
    {
        DnsCache {
            db,
            net,
            opts,
            r2a: HashMap::new(),
            unreplied_requests: pending_new(),
            dom_update_subscriptions: subscriptions_new(),
        }
    }

    /// Whether `dom` has subscribers, one of them a live request with id `id`.
    fn check_dom(&self, dom: &str, id: u16) -> (r: bool)
        ensures
            r == dom_subscribed(self.pending(), self.subscriptions(), dom@, id),
    {
        match subscriptions_get(&self.dom_update_subscriptions, dom) {
            None => false,
            Some(rqs) => {
                let ghost list = self.subscriptions()[dom@];
                let mut good = false;
                let mut i: usize = 0;
                while i < rqs.len()
                    invariant
                        i <= rqs@.len(),
                        rqs@ == list,
                        good <==> exists|k: int| 0 <= k < i && #[trigger] token_matches(self.pending(), list[k], id),
                    decreases rqs.len() - i,
                {
                    if let Some(rq) = pending_get(&self.unreplied_requests, rqs[i]) {
                        if rq.id == id {
                            good = true;
                        }
                    }
                    proof {
                        if token_matches(self.pending(), list[i as int], id) {
                            assert(good);
                        }
                    }
                    i = i + 1;
                }
                good
            },
        }
    }

    /// Stage 2: every echoed question must have been asked by a live request
    /// with the reply's id.
    fn check_questions(&self, p: &WirePacket) -> (r: StepResult)
        ensures
            (r == StepResult::GoOn) == questions_subscribed(self.pending(), self.subscriptions(), p@),
    {
        let mut i: usize = 0;
        while i < p.questions.len()
            invariant
                i <= p@.questions.len(),
                forall|j: int| 0 <= j < i ==> dom_subscribed(self.pending(), self.subscriptions(), #[trigger] p@.questions[j].qname, p@.id),
            decreases p.questions.len() - i,
        {
            if !self.check_dom(p.questions[i].qname.as_str(), p.id) {
                assert(!dom_subscribed(self.pending(), self.subscriptions(), p@.questions[i as int].qname, p@.id));
                return StepResult::EarlyReturn;
            }
            i = i + 1;
        }
        StepResult::GoOn
    }

    /// Stage 5: every resolved answer must be for a name that a live request
    /// with the reply's id asked.
    fn check_answers(&self, p: &WirePacket, actual_answers: &Vec<ResolvedAnswer>) -> (r: StepResult)
        ensures
            (r == StepResult::GoOn) == answers_subscribed(
                self.pending(),
                self.subscriptions(),
                resolved_view(actual_answers@),
                p@.id,
            ),
    {
        let ghost rs = resolved_view(actual_answers@);
        let mut i: usize = 0;
        while i < actual_answers.len()
            invariant
                i <= actual_answers@.len(),
                rs == resolved_view(actual_answers@),
                forall|j: int| 0 <= j < i ==> dom_subscribed(self.pending(), self.subscriptions(), #[trigger] rs[j].dom, p@.id),
            decreases actual_answers.len() - i,
        {
            if !self.check_dom(actual_answers[i].dom.as_str(), p.id) {
                assert(!dom_subscribed(self.pending(), self.subscriptions(), rs[i as int].dom, p@.id));
                return StepResult::EarlyReturn;
            }
            i = i + 1;
        }
        StepResult::GoOn
    }

    /// Stage 1: a reply to a pass-through query goes back to its client.
    fn handle_direct_replies(&mut self, buf: &[u8], p: &WirePacket) -> (r: Result<StepResult, CacheError>)
        ensures
            old(self).forwards().contains_key(p@.id) ==> final(self).forwards() == old(self).forwards().remove(p@.id)
                && r != Ok::<StepResult, CacheError>(StepResult::GoOn),
            !old(self).forwards().contains_key(p@.id) ==> final(self).forwards() == old(self).forwards()
                && r == Ok::<StepResult, CacheError>(StepResult::GoOn),
            final(self).pending() == old(self).pending(),
            final(self).subscriptions() == old(self).subscriptions(),
            final(self).store() == old(self).store(),
            final(self).opts == old(self).opts,
            r != Err::<StepResult, CacheError>(CacheError::Parse),
    {
        match self.r2a.remove(&p.id) {
            Some(ca) => {
                if let Err(e) = self.net.send_to_client(buf, ca) {
                    return Err(CacheError::Io(e));
                }
                Ok(StepResult::EarlyReturn)
            },
            None => Ok(StepResult::GoOn),
        }
    }

    /// Stage 7: merges each candidate with the stored entry (see
    /// [`merge_entry`]), puts the result, and flushes. Returns the names.
    fn save_entries_to_database(&mut self, tmp: Vec<(String, CacheEntry)>) -> (r: Result<Vec<String>, CacheError>)
        ensures
            r is Ok ==> r->Ok_0@.map_values(|d: String| d@) == tmp@.map_values(|x: (String, CacheEntry)| x.0@),
            r is Err ==> r->Err_0 != CacheError::Parse,
            final(self).forwards() == old(self).forwards(),
            final(self).pending() == old(self).pending(),
            final(self).subscriptions() == old(self).subscriptions(),
            final(self).opts == old(self).opts,
    {
        let mut tmp = tmp;
        let ghost all = tmp@;
        let mut doms: Vec<String> = Vec::new();
        while tmp.len() > 0
            invariant
                doms@.len() + tmp@.len() == all.len(),
                tmp@ == all.skip(doms@.len() as int),
                doms@.map_values(|d: String| d@) == all.take(doms@.len() as int).map_values(|x: (String, CacheEntry)| x.0@),
                self.forwards() == old(self).forwards(),
                self.pending() == old(self).pending(),
                self.subscriptions() == old(self).subscriptions(),
                self.opts == old(self).opts,
            decreases tmp.len(),
        {
            let ghost n: int = doms@.len() as int;
            let (dom, entry) = tmp.remove(0);
            let cached = match self.db.get(dom.as_str()) {
                Ok(Some(ce)) => ce,
                Ok(None) => CacheEntry { a4: None, a6: None },
                Err(e) => return Err(CacheError::Io(e)),
            };
            let merged = merge_entry(entry, cached);
            if let Err(e) = self.db.put(dom.as_str(), &merged) {
                return Err(CacheError::Io(e));
            }
            let ghost prev = doms@;
            doms.push(dom);
            proof {
                assert(tmp@ =~= all.skip(n + 1));
                assert(all.take(n + 1) =~= all.take(n).push(all[n]));
                assert(doms@.map_values(|d: String| d@) =~= prev.map_values(|d: String| d@).push(dom@));
                assert(all.take(n + 1).map_values(|x: (String, CacheEntry)| x.0@) =~= all.take(n).map_values(|x: (String, CacheEntry)| x.0@).push(all[n].0@));
            }
        }
        if let Err(e) = self.db.flush() {
            return Err(CacheError::Io(e));
        }
        assert(all.take(all.len() as int) =~= all);
        Ok(doms)
    }

    /// Settles the subscribers of `dom`, whose list was taken out: `outcomes[k]`
    /// is `None` where token `subs[k]` is not pending, else whether the read
    /// path settled it. Settled tokens leave the pending table; the unsettled
    /// ones, in order, become the new list of `dom`, which has none if there
    /// are none.
    fn settle_name(&mut self, dom: &String, subs: &Vec<usize>, outcomes: &Vec<Option<bool>>)
        requires
            subs@.len() == outcomes@.len(),
            !old(self).subscriptions().contains_key(dom@),
        ensures
            final(self).pending() == old(self).pending().remove_keys(settled_tokens(subs@, outcomes@)),
            final(self).subscriptions() == if unsettled_tokens(subs@, outcomes@).len() == 0 {
                old(self).subscriptions()
            } else {
                old(self).subscriptions().insert(dom@, unsettled_tokens(subs@, outcomes@))
            },
            final(self).forwards() == old(self).forwards(),
            final(self).store() == old(self).store(),
            final(self).opts == old(self).opts,
    {
        let mut unhappy: Vec<usize> = Vec::new();
        let mut k: usize = 0;
        while k < subs.len()
            invariant
                k <= subs@.len(),
                subs@.len() == outcomes@.len(),
                self.pending() == old(self).pending().remove_keys(
                    settled_tokens(subs@.take(k as int), outcomes@.take(k as int)),
                ),
                unhappy@ == unsettled_tokens(subs@.take(k as int), outcomes@.take(k as int)),
                self.subscriptions() == old(self).subscriptions(),
                self.forwards() == old(self).forwards(),
                self.store() == old(self).store(),
                self.opts == old(self).opts,
            decreases subs.len() - k,
        {
            let ghost before = self.pending();
            proof {
                assert(subs@.take(k + 1).drop_last() =~= subs@.take(k as int));
                assert(outcomes@.take(k + 1).drop_last() =~= outcomes@.take(k as int));
                lemma_settled_step(subs@, outcomes@, k as int);
            }
            match outcomes[k] {
                Some(true) => {
                    let _ = pending_remove(&mut self.unreplied_requests, subs[k]);
                    assert(self.pending() =~= old(self).pending().remove_keys(
                        settled_tokens(subs@.take(k + 1), outcomes@.take(k + 1)),
                    ));
                },
                Some(false) => {
                    unhappy.push(subs[k]);
                    assert(self.pending() =~= old(self).pending().remove_keys(
                        settled_tokens(subs@.take(k + 1), outcomes@.take(k + 1)),
                    ));
                },
                None => {
                    assert(self.pending() =~= old(self).pending().remove_keys(
                        settled_tokens(subs@.take(k + 1), outcomes@.take(k + 1)),
                    ));
                },
            }
            k = k + 1;
        }
        proof {
            assert(subs@.take(subs@.len() as int) =~= subs@);
            assert(outcomes@.take(subs@.len() as int) =~= outcomes@);
        }
        if unhappy.len() > 0 {
            subscriptions_or_insert_vec(&mut self.dom_update_subscriptions, dom.clone(), unhappy);
        }
    }

    /// Stage 8: each subscriber of each updated name is answered from the
    /// cache (see [`settle_name`](Self::settle_name)). Only subscribers of
    /// the updated names leave the table, a subscriber still pending stays
    /// subscribed, and where no name has a live subscriber nothing outside
    /// is called and the step succeeds.
    fn reply_to_client(&mut self, doms: Vec<String>, now: u64) -> (r: Result<(), CacheError>)
        ensures
            final(self).forwards() == old(self).forwards(),
            pending_kept(final(self).pending(), old(self).pending()),
            left_as_subscribers(final(self).pending(), old(self).pending(), old(self).subscriptions(), doms@, doms@.len() as int),
            subscriptions_kept(final(self).subscriptions(), old(self).subscriptions(), doms@, doms@.len() as int),
            subscriptions_shrunk(final(self).subscriptions(), old(self).subscriptions()),
            no_live_subscribers(old(self).pending(), old(self).subscriptions(), doms@) ==> r is Ok,
            r is Ok ==> still_subscribed(final(self).pending(), old(self).subscriptions(), final(self).subscriptions(), doms@, doms@.len() as int),
            r != Err::<(), CacheError>(CacheError::Parse),
            final(self).opts == old(self).opts,
    {
        let mut i: usize = 0;
        while i < doms.len()
            invariant
                i <= doms@.len(),
                self.forwards() == old(self).forwards(),
                pending_kept(self.pending(), old(self).pending()),
                left_as_subscribers(self.pending(), old(self).pending(), old(self).subscriptions(), doms@, i as int),
                subscriptions_kept(self.subscriptions(), old(self).subscriptions(), doms@, i as int),
                subscriptions_shrunk(self.subscriptions(), old(self).subscriptions()),
                still_subscribed(self.pending(), old(self).subscriptions(), self.subscriptions(), doms@, i as int),
                self.opts == old(self).opts,
            decreases doms.len() - i,
        {
            let dom = &doms[i];
            let ghost s0 = self.subscriptions();
            let ghost p0 = self.pending();
            let subs = match subscriptions_remove(&mut self.dom_update_subscriptions, dom.as_str()) {
                Some(v) => v,
                None => Vec::new(),
            };
            proof {
                lemma_subscriptions_kept_step(self.subscriptions(), s0, old(self).subscriptions(), doms@, i as int);
                lemma_left_as_subscribers_grow(p0, old(self).pending(), old(self).subscriptions(), doms@, i as int);
                assert forall|x: usize| subs@.contains(x) implies old(self).subscriptions().contains_key(dom@)
                    && old(self).subscriptions()[dom@].contains(x) by {
                    let k = choose|k: int| 0 <= k < subs@.len() && subs@[k] == x;
                    assert(s0.contains_key(dom@) && s0[dom@][k] == x);
                }
            }
            proof {
                lemma_left_as_subscribers_mono(p0, old(self).pending(), old(self).subscriptions(), doms@, i + 1, doms@.len() as int);
                lemma_subscriptions_kept_mono(self.subscriptions(), old(self).subscriptions(), doms@, i + 1, doms@.len() as int);
                assert forall|k: Seq<char>| #[trigger] self.subscriptions().contains_key(k) implies old(self).subscriptions().contains_key(k)
                    && forall|x: usize| self.subscriptions()[k].contains(x) ==> old(self).subscriptions()[k].contains(x) by {
                    assert(s0.contains_key(k));
                }
            }
            let mut outcomes: Vec<Option<bool>> = Vec::new();
            let mut j: usize = 0;
            while j < subs.len()
                invariant
                    i < doms@.len(),
                    j <= subs@.len(),
                    outcomes@.len() == j,
                    forall|k: int| 0 <= k < j ==> ((#[trigger] outcomes@[k]) is None <==> !p0.contains_key(subs@[k])),
                    forall|x: usize| subs@.contains(x) ==> old(self).subscriptions().contains_key(dom@)
                        && old(self).subscriptions()[dom@].contains(x),
                    dom@ == doms@[i as int]@,
                    self.pending() == p0,
                    pending_kept(p0, old(self).pending()),
                    left_as_subscribers(p0, old(self).pending(), old(self).subscriptions(), doms@, doms@.len() as int),
                    subscriptions_kept(self.subscriptions(), old(self).subscriptions(), doms@, doms@.len() as int),
                    subscriptions_shrunk(self.subscriptions(), old(self).subscriptions()),
                    self.subscriptions() == s0.remove(dom@),
                    self.forwards() == old(self).forwards(),
                    self.opts == old(self).opts,
                decreases subs.len() - j,
            {
                let sub_id = subs[j];
                proof {
                    assert(subs@[j as int] == sub_id);
                    assert(subs@.contains(sub_id));
                }
                match pending_get(&self.unreplied_requests, sub_id) {
                    Some(r) => {
                        let dummy = r.inhibit_send;
                        let result = match try_answer_request(
                            &mut self.db,
                            now,
                            &self.net,
                            r,
                            self.opts.max_ttl,
                            self.opts.min_ttl,
                        ) {
                            Ok(x) => x,
                            Err(e) => {
                                assert(old(self).pending().contains_key(sub_id));
                                assert(!no_live_subscribers(old(self).pending(), old(self).subscriptions(), doms@));
                                return Err(e);
                            },
                        };
                        outcomes.push(Some(is_settled(result, dummy)));
                    },
                    None => {
                        outcomes.push(None);
                    },
                }
                j = j + 1;
            }
            self.settle_name(dom, &subs, &outcomes);
            proof {
                let st = settled_tokens(subs@, outcomes@);
                let un = unsettled_tokens(subs@, outcomes@);
                lemma_unsettled_from(subs@, outcomes@);
                lemma_subscriptions_kept_step(self.subscriptions(), s0, old(self).subscriptions(), doms@, i as int);
                assert forall|t: usize| #[trigger] old(self).pending().contains_key(t) && !self.pending().contains_key(t)
                    implies among_subscribers(old(self).subscriptions(), doms@, i + 1, t) by {
                    if p0.contains_key(t) {
                        assert(st.contains(t));
                        let k = choose|k: int| 0 <= k < subs@.len() && subs@[k] == t && outcomes@[k] == Some(true);
                        assert(subs@.contains(t));
                        assert(0 <= i < i + 1 && old(self).subscriptions().contains_key(doms@[i as int]@)
                            && old(self).subscriptions()[doms@[i as int]@].contains(t));
                    }
                }
                assert forall|k: Seq<char>| #[trigger] self.subscriptions().contains_key(k) implies old(self).subscriptions().contains_key(k)
                    && forall|x: usize| self.subscriptions()[k].contains(x) ==> old(self).subscriptions()[k].contains(x) by {
                    if k != dom@ {
                        assert(s0.contains_key(k));
                        assert(self.subscriptions()[k] == s0[k]);
                        assert forall|x: usize| self.subscriptions()[k].contains(x) implies old(self).subscriptions()[k].contains(x) by {
                            assert(s0[k].contains(x));
                        }
                    } else {
                        assert(un.len() > 0);
                        assert(un.contains(un[0]));
                        assert(subs@.contains(un[0]));
                        assert forall|x: usize| self.subscriptions()[k].contains(x) implies old(self).subscriptions()[k].contains(x) by {
                            assert(subs@.contains(x));
                        }
                    }
                }
                assert forall|j2: int, t: usize|
                    0 <= j2 < i + 1 && old(self).subscriptions().contains_key(doms@[j2]@)
                        && #[trigger] old(self).subscriptions()[doms@[j2]@].contains(t) && self.pending().contains_key(t)
                    implies self.subscriptions().contains_key(doms@[j2]@) && self.subscriptions()[doms@[j2]@].contains(t) by {
                    assert(p0.contains_key(t));
                    if doms@[j2]@ == dom@ {
                        // t was in the list taken out.
                        if among(doms@, i as int, dom@) {
                            let j3 = choose|j3: int| 0 <= j3 < i && (#[trigger] doms@[j3])@ == dom@;
                            assert(old(self).subscriptions()[doms@[j3]@].contains(t));
                            assert(s0.contains_key(doms@[j3]@) && s0[doms@[j3]@].contains(t));
                        } else {
                            assert(s0.contains_key(dom@) == old(self).subscriptions().contains_key(dom@));
                            assert(s0[dom@] == old(self).subscriptions()[dom@]);
                        }
                        assert(s0.contains_key(dom@) && s0[dom@].contains(t));
                        let k = choose|k: int| 0 <= k < s0[dom@].len() && s0[dom@][k] == t;
                        assert(subs@ == s0[dom@]);
                        assert(subs@[k] == t);
                        assert(outcomes@[k] is Some);
                        if outcomes@[k] == Some(true) {
                            assert(st.contains(t));
                            assert(!self.pending().contains_key(t));
                        }
                        assert(outcomes@[k] == Some(false));
                        assert(un.contains(subs@[k]));
                        assert(un.contains(t));
                    } else {
                        assert(j2 < i);
                        assert(s0.contains_key(doms@[j2]@) && s0[doms@[j2]@].contains(t));
                    }
                }
            }
            i = i + 1;
        }
        Ok(())
    }

    /// Registers a request: a fresh token in the pending table, subscribed
    /// under the name of each of its questions.
    fn register(&mut self, r: SimplifiedRequest) -> (t: usize)
        ensures
            !old(self).pending().contains_key(t),
            final(self).pending() == old(self).pending().insert(t, r),
            final(self).subscriptions() == subscribed_all(old(self).subscriptions(), r.q@, t),
            final(self).forwards() == old(self).forwards(),
            final(self).store() == old(self).store(),
            final(self).opts == old(self).opts,
    {
        let mut doms: Vec<String> = Vec::with_capacity(r.q.len());
        let mut i: usize = 0;
        while i < r.q.len()
            invariant
                i <= r.q@.len(),
                doms@.len() == i,
                forall|j: int| 0 <= j < i ==> (#[trigger] doms@[j])@ == r.q@[j].dom@,
            decreases r.q.len() - i,
        {
            doms.push(r.q[i].dom.clone());
            i = i + 1;
        }
        let ghost qs = r.q@;
        let t = pending_insert(&mut self.unreplied_requests, r);
        let ghost s0 = self.subscriptions();
        let mut k: usize = 0;
        while k < doms.len()
            invariant
                k <= doms@.len(),
                doms@.len() == qs.len(),
                forall|j: int| 0 <= j < doms@.len() ==> (#[trigger] doms@[j])@ == qs[j].dom@,
                self.subscriptions() == subscribed_all(s0, qs.take(k as int), t),
                self.pending() == old(self).pending().insert(t, r),
                self.forwards() == old(self).forwards(),
                self.store() == old(self).store(),
                self.opts == old(self).opts,
            decreases doms.len() - k,
        {
            subscriptions_insert(&mut self.dom_update_subscriptions, doms[k].clone(), t);
            assert(qs.take(k + 1).drop_last() =~= qs.take(k as int));
            k = k + 1;
        }
        assert(qs.take(qs.len() as int) =~= qs);
        t
    }

    /// Decides the client path after the read path: a request answered from
    /// cache is dropped; any other is registered, as a background refresh
    /// when `client_action` says so. Returns the token if registered.
    fn settle_client(&mut self, r: SimplifiedRequest, result: TryAnswerRequestResult) -> (t: Option<usize>)
        ensures
            client_action(result, old(self).neg_ttl()) is None ==> t is None && *final(self) == *old(self),
            client_action(result, old(self).neg_ttl()) is Some ==> ({
                let tok = t->Some_0;
                &&& t is Some
                &&& !old(self).pending().contains_key(tok)
                &&& final(self).pending() == old(self).pending().insert(
                    tok,
                    SimplifiedRequest { inhibit_send: client_action(result, old(self).neg_ttl())->Some_0, ..r },
                )
                &&& final(self).subscriptions() == subscribed_all(old(self).subscriptions(), r.q@, tok)
            }),
            final(self).forwards() == old(self).forwards(),
            final(self).store() == old(self).store(),
            final(self).opts == old(self).opts,
    {
        match client_decision(result, self.opts.neg_ttl) {
            None => None,
            Some(inhibit) => {
                let mut r = r;
                r.inhibit_send = inhibit;
                Some(self.register(r))
            },
        }
    }

    /// Handles a datagram from a client. A query with a question the cache
    /// does not handle is passed through: its id is remembered for the
    /// client and the datagram relayed upstream. Otherwise the cache answers
    /// what it can; a request that it could not answer fresh is registered,
    /// as a background refresh where a stale answer already went out, and
    /// the datagram is forwarded upstream.
    pub(crate) fn packet_from_client(&mut self, src: ClientAddr, buf: &[u8]) -> (res: Result<(), CacheError>)
        ensures
            client_transition(*old(self), *final(self), buf@, src, res is Ok),
            parsed_packet(buf@) is None ==> res == Err::<(), CacheError>(CacheError::Parse),
            parsed_packet(buf@) is Some ==> res != Err::<(), CacheError>(CacheError::Parse),
    {
        let p = match read_packet(buf) {
            Some(p) => p,
            None => return Err(CacheError::Parse),
        };
        let questions = match simplify_questions(&p) {
            None => {
                self.r2a.insert(p.id, src);
                if let Err(e) = self.net.send_to_upstream(buf) {
                    return Err(CacheError::Io(e));
                }
                return Ok(());
            },
            Some(q) => q,
        };
        let now = match unix_now() {
            Some(t) => t,
            None => return Err(CacheError::Clock),
        };
        let r = SimplifiedRequest { id: p.id, clientid: src, q: questions, inhibit_send: false };
        let result = match try_answer_request(
            &mut self.db,
            now,
            &self.net,
            &r,
            self.opts.max_ttl,
            self.opts.min_ttl,
        ) {
            Ok(x) => x,
            Err(e) => return Err(e),
        };
        let ghost es = choose|es: Seq<Option<CacheEntry>>|
            es.len() == r.q@.len() && result == answer_result(
                #[trigger] answer_fold(r.q@, es, now, self.opts.max_ttl, self.opts.min_ttl),
            );
        let ghost mid = *self;
        let ghost qs = r.q@;
        assert(simplified_from(qs, p@));
        assert(client_read_action(mid, qs, es, now) == client_action(result, mid.neg_ttl()));
        let t = self.settle_client(r, result);
        match t {
            None => {
                assert(client_read_action(*old(self), qs, es, now) is None);
            },
            Some(tok) => {
                assert(self.pending()[tok].q@ == qs);
                assert(registered_request(*old(self), *self, tok, p@, src));
                assert(client_read_action(*old(self), self.pending()[tok].q@, es, now) == Some(
                    self.pending()[tok].inhibit_send,
                ));
                if let Err(e) = self.net.send_to_upstream(buf) {
                    return Err(CacheError::Io(e));
                }
            },
        }
        Ok(())
    }

    /// Handles a datagram from the upstream server through the pipeline:
    /// a reply to a pass-through query is relayed to its client; a reply
    /// that fails the question check, the CNAME hop limit or the answer
    /// check is dropped with nothing changed; otherwise the candidate
    /// entries are merged into the store and the subscribers answered.
    pub(crate) fn packet_from_upstream(&mut self, buf: &[u8]) -> (res: Result<(), CacheError>)
        ensures
            upstream_transition(*old(self), *final(self), buf@, res is Ok),
            parsed_packet(buf@) is None ==> res == Err::<(), CacheError>(CacheError::Parse),
            parsed_packet(buf@) is Some ==> res != Err::<(), CacheError>(CacheError::Parse),
            parsed_packet(buf@) is Some && !old(self).forwards().contains_key(
                lower_packet(parsed_packet(buf@)->Some_0).id,
            ) && upstream_rejects(
                old(self).pending(),
                old(self).subscriptions(),
                lower_packet(parsed_packet(buf@)->Some_0),
            ) ==> res is Ok,
    {
        let p = match read_packet(buf) {
            Some(p) => p,
            None => return Err(CacheError::Parse),
        };
        if self.handle_direct_replies(buf, &p)? == StepResult::EarlyReturn {
            return Ok(());
        }
        if self.check_questions(&p) == StepResult::EarlyReturn {
            return Ok(());
        }
        let cnames = get_cname_redirs(&p);
        let actual_answers = match make_list_of_ips(&p, &cnames) {
            Some(a) => a,
            None => return Ok(()),
        };
        if self.check_answers(&p, &actual_answers) == StepResult::EarlyReturn {
            return Ok(());
        }
        let now = match unix_now() {
            Some(t) => t,
            None => {
                assert(accepted_effect(*old(self), *self, p@, 0, false));
                return Err(CacheError::Clock);
            },
        };
        let ghost rs = resolved_view(actual_answers@);
        let tmp = build_new_entries(&p, actual_answers, now);
        let ghost tv = tmp@;
        let doms = match self.save_entries_to_database(tmp) {
            Ok(d) => d,
            Err(e) => {
                assert(accepted_effect(*old(self), *self, p@, now, false));
                return Err(e);
            },
        };
        assert(doms@.map_values(|d: String| d@).len() == doms@.len());
        assert(doms@.len() == tv.len());
        let ghost before = *self;
        let res = self.reply_to_client(doms, now);
        proof {
            let c = candidates(p@, rs, now);
            assert forall|k: Seq<char>| c.contains_key(k) <==> among(doms@, doms@.len() as int, k) by {
                assert(c.contains_key(k) == has_key(tv, k));
                if has_key(tv, k) {
                    let i = choose|i: int| 0 <= i < tv.len() && (#[trigger] tv[i]).0@ == k;
                    assert(doms@.map_values(|d: String| d@)[i] == tv.map_values(|x: (String, CacheEntry)| x.0@)[i]);
                    assert(doms@[i]@ == k);
                }
                if among(doms@, doms@.len() as int, k) {
                    let i = choose|i: int| 0 <= i < doms@.len() && (#[trigger] doms@[i])@ == k;
                    assert(doms@.map_values(|d: String| d@)[i] == tv.map_values(|x: (String, CacheEntry)| x.0@)[i]);
                    assert(tv[i].0@ == k);
                }
            }
            assert(accepted_effect(*old(self), *self, p@, now, res is Ok)) by {
                assert forall|k: Seq<char>, t: usize|
                    res is Ok && c.contains_key(k) && old(self).subscriptions().contains_key(k)
                        && #[trigger] old(self).subscriptions()[k].contains(t) && self.pending().contains_key(t)
                    implies self.subscriptions().contains_key(k) && self.subscriptions()[k].contains(t) by {
                    let j = choose|j: int| 0 <= j < doms@.len() && (#[trigger] doms@[j])@ == k;
                    assert(before.subscriptions()[doms@[j]@].contains(t));
                }
            }
            assert forall|t: usize| #[trigger] before.pending().contains_key(t) && !self.pending().contains_key(t) implies exists|d: Seq<char>|
                #[trigger] before.subscriptions().contains_key(d) && before.subscriptions()[d].contains(t) by {
                let j = choose|j: int| 0 <= j < doms@.len() && before.subscriptions().contains_key((#[trigger] doms@[j])@)
                    && before.subscriptions()[doms@[j]@].contains(t);
                assert(before.subscriptions().contains_key(doms@[j]@));
            }
        }
        res
    }

    /// Receives one datagram into `buf` and processes it as from a client
    /// or from upstream.
    pub(crate) fn serve1(&mut self, buf: &mut [u8]) -> (res: Result<(), CacheError>)
        ensures
            served_one(*old(self), *final(self)),
    {
        let (amt, src) = match self.net.recv_from(buf) {
            Ok(x) => x,
            Err(e) => return Err(CacheError::Io(e)),
        };
        if amt > buf.len() {
            return Err(CacheError::Parse);
        }
        let data = slice_subrange(buf, 0, amt);
        match src {
            ReceiveResult::FromUpstream => self.packet_from_upstream(data),
            ReceiveResult::FromClient(c) => self.packet_from_client(c, data),
        }
    }

    /// Receives and processes one datagram: the tables and the store change
    /// as the client path or the upstream pipeline prescribes for it, or not
    /// at all when receiving fails.
    pub fn serve_one_packet(&mut self) -> (res: Result<(), CacheError>)
        ensures
            served_one(*old(self), *final(self)),
    {
        let mut buf = [0u8; 1600];
        self.serve1(&mut buf)
    }
}

} // verus!
