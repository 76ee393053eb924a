//! The cache read path: answering a request from stored entries.
use vstd::prelude::*;
use crate::{CacheError, Database, Network};
use crate::record::{AddrTtl, AddrTtlView, CacheEntry, CacheEntry2, records_view};
use crate::request::{SimplifiedQuestion, SimplifiedRequest};
use crate::ttl::{AdjustTtlResult, adjust_status, adjust_ttl, adjusted_records, is_expired};
use crate::encode::{AnswerList, ReplyError, encode_reply, ips_sized};

verus! {

/// Result of trying to answer a request from the cache.
#[derive(Debug, Clone, Copy, PartialEq, Eq, Structural)]
pub enum TryAnswerRequestResult {
    /// Every question was answered; the status of the answers.
    Resolved(AdjustTtlResult),
    /// This many questions have a family that the cache does not know.
    UnknownsRemain(usize),
}

/// Answers for one family, as values: each domain with its records.
pub open spec fn answers_view(list: Seq<(String, Vec<AddrTtl>)>) -> Seq<(Seq<char>, Seq<AddrTtlView>)> {
    list.map_values(|x: (String, Vec<AddrTtl>)| (x.0@, records_view(x.1@)))
}

/// The state of the read path after some questions.
pub struct AnswerState {
    pub unknowns: nat,
    pub status: AdjustTtlResult,
    pub a4: Seq<(Seq<char>, Seq<AddrTtlView>)>,
    pub a6: Seq<(Seq<char>, Seq<AddrTtlView>)>,
}

/// The first status that is not `Fresh` wins.
pub open spec fn combine_status(cur: AdjustTtlResult, next: AdjustTtlResult) -> AdjustTtlResult {
    if cur == AdjustTtlResult::Fresh {
        next
    } else {
        cur
    }
}

/// One family of one question: adjusted and appended if stored, else one
/// more unknown.
pub open spec fn family_step(
    s: AnswerState,
    dom: Seq<char>,
    f: Option<CacheEntry2>,
    six: bool,
    now: u64,
    max_ttl: u32,
    min_ttl: u32,
) -> AnswerState {
    match f {
        Some(set) => {
            let v = records_view(set.a@);
            let st = combine_status(s.status, adjust_status(v, now, set.t, max_ttl, min_ttl));
            let item = (dom, adjusted_records(v, now, set.t, max_ttl, min_ttl));
            if six {
                AnswerState { status: st, a6: s.a6.push(item), ..s }
            } else {
                AnswerState { status: st, a4: s.a4.push(item), ..s }
            }
        },
        None => AnswerState { unknowns: s.unknowns + 1, ..s },
    }
}

/// One question against its stored entry. A question missing its A family
/// counts once and its AAAA family is then not looked at.
pub open spec fn question_step(
    s: AnswerState,
    q: SimplifiedQuestion,
    e: Option<CacheEntry>,
    now: u64,
    max_ttl: u32,
    min_ttl: u32,
) -> AnswerState {
    match e {
        None => AnswerState { unknowns: s.unknowns + 1, ..s },
        Some(ce) => {
            let s1 = if q.a4 {
                family_step(s, q.dom@, ce.a4, false, now, max_ttl, min_ttl)
            } else {
                s
            };
            if q.a4 && ce.a4 is None {
                s1
            } else if q.a6 {
                family_step(s1, q.dom@, ce.a6, true, now, max_ttl, min_ttl)
            } else {
                s1
            }
        },
    }
}

/// Nothing unknown, fresh, no answers.
pub open spec fn initial_answer_state() -> AnswerState {
    AnswerState { unknowns: 0, status: AdjustTtlResult::Fresh, a4: seq![], a6: seq![] }
}

/// The read path over the questions, given the entry stored for each.
pub open spec fn answer_fold(
    qs: Seq<SimplifiedQuestion>,
    es: Seq<Option<CacheEntry>>,
    now: u64,
    max_ttl: u32,
    min_ttl: u32,
) -> AnswerState
    decreases qs.len(),
{
    if qs.len() == 0 || es.len() < qs.len() {
        initial_answer_state()
    } else {
        question_step(
            answer_fold(qs.drop_last(), es.take(qs.len() - 1), now, max_ttl, min_ttl),
            qs.last(),
            es[qs.len() - 1],
            now,
            max_ttl,
            min_ttl,
        )
    }
}

/// The result reported for a final read-path state.
pub open spec fn answer_result(s: AnswerState) -> TryAnswerRequestResult {
    if s.unknowns > 0 {
        TryAnswerRequestResult::UnknownsRemain(s.unknowns as usize)
    } else {
        TryAnswerRequestResult::Resolved(s.status)
    }
}

fn combine(cur: AdjustTtlResult, next: AdjustTtlResult) -> (r: AdjustTtlResult)
    ensures
        r == combine_status(cur, next),
{
    if cur == AdjustTtlResult::Fresh {
        next
    } else {
        cur
    }
}

fn push_family(
    list: &mut AnswerList,
    status: &mut AdjustTtlResult,
    dom: &String,
    set: &CacheEntry2,
    now: u64,
    max_ttl: u32,
    min_ttl: u32,
)
    ensures
        *final(status) == combine_status(
            *old(status),
            adjust_status(records_view(set.a@), now, set.t, max_ttl, min_ttl),
        ),
        answers_view(final(list)@) == answers_view(old(list)@).push(
            (dom@, adjusted_records(records_view(set.a@), now, set.t, max_ttl, min_ttl)),
        ),
{
    let (tr, adj) = adjust_ttl(&set.a, now, set.t, max_ttl, min_ttl);
    *status = combine(*status, tr);
    let ghost prev = list@;
    list.push((dom.clone(), adj));
    assert(answers_view(list@) =~= answers_view(prev).push(
        (dom@, adjusted_records(records_view(set.a@), now, set.t, max_ttl, min_ttl)),
    ));
}

/// Answers a request from the entries stored for its questions (`entries[i]`
/// for question `i`): the result, and the A and AAAA answer lists with TTLs
/// adjusted to `now`.
pub fn answer_from_entries(
    r: &SimplifiedRequest,
    entries: &Vec<Option<CacheEntry>>,
    now: u64,
    max_ttl: u32,
    min_ttl: u32,
) -> (res: (TryAnswerRequestResult, AnswerList, AnswerList))
    requires
        entries@.len() == r.q@.len(),
    ensures
        res.0 == answer_result(answer_fold(r.q@, entries@, now, max_ttl, min_ttl)),
        answers_view(res.1@) == answer_fold(r.q@, entries@, now, max_ttl, min_ttl).a4,
        answers_view(res.2@) == answer_fold(r.q@, entries@, now, max_ttl, min_ttl).a6,
{
    let mut num_unknowns: usize = 0;
    let mut ans_a4: AnswerList = Vec::with_capacity(4);
    let mut ans_a6: AnswerList = Vec::with_capacity(4);
    let mut ttl_status = AdjustTtlResult::Fresh;
    let mut i: usize = 0;
    while i < r.q.len()
        invariant
            i <= r.q@.len(),
            entries@.len() == r.q@.len(),
            num_unknowns <= i,
            ({
                let s = answer_fold(r.q@.take(i as int), entries@.take(i as int), now, max_ttl, min_ttl);
                &&& s.unknowns == num_unknowns
                &&& s.status == ttl_status
                &&& s.a4 == answers_view(ans_a4@)
                &&& s.a6 == answers_view(ans_a6@)
            }),
        decreases r.q.len() - i,
    {
        let q = &r.q[i];
        proof {
            assert(r.q@.take(i + 1).drop_last() =~= r.q@.take(i as int));
            assert(entries@.take(i + 1).take(i as int) =~= entries@.take(i as int));
        }
        match &entries[i] {
            None => {
                num_unknowns = num_unknowns + 1;
            },
            Some(ce) => {
                let mut missing = false;
                if q.a4 {
                    match &ce.a4 {
                        Some(set) => {
                            push_family(&mut ans_a4, &mut ttl_status, &q.dom, set, now, max_ttl, min_ttl);
                        },
                        None => {
                            num_unknowns = num_unknowns + 1;
                            missing = true;
                        },
                    }
                }
                if !missing && q.a6 {
                    match &ce.a6 {
                        Some(set) => {
                            push_family(&mut ans_a6, &mut ttl_status, &q.dom, set, now, max_ttl, min_ttl);
                        },
                        None => {
                            num_unknowns = num_unknowns + 1;
                        },
                    }
                }
            },
        }
        i = i + 1;
    }
    proof {
        assert(r.q@.take(r.q@.len() as int) =~= r.q@);
        assert(entries@.take(r.q@.len() as int) =~= entries@);
    }
    let result = if num_unknowns > 0 {
        TryAnswerRequestResult::UnknownsRemain(num_unknowns)
    } else {
        TryAnswerRequestResult::Resolved(ttl_status)
    };
    (result, ans_a4, ans_a6)
}


/// Encodes the reply for a request and sends it to the request's client.
pub(crate) fn send_dns_reply<N: Network>(
    net: &N,
    r: &SimplifiedRequest,
    ans_a: &AnswerList,
    ans_aaaa: &AnswerList,
) -> (res: Result<(), CacheError>)
    ensures
        res != Err::<(), CacheError>(CacheError::Parse),
        !ips_sized(ans_a@, 4) ==> res == Err::<(), CacheError>(CacheError::Reply(ReplyError::BadIpv4Length)),
        ips_sized(ans_a@, 4) && !ips_sized(ans_aaaa@, 16) ==> res == Err::<(), CacheError>(
            CacheError::Reply(ReplyError::BadIpv6Length),
        ),
{
    match encode_reply(r, ans_a, ans_aaaa) {
        Ok(buf) => match net.send_to_client(buf.as_slice(), r.clientid) {
            Ok(()) => Ok(()),
            Err(e) => Err(CacheError::Io(e)),
        },
        Err(e) => Err(CacheError::Reply(e)),
    }
}

/// Looks up each question of the request in the store and answers it from
/// there, adjusting TTLs to `now`. When every question is answered and the
/// request is not a background refresh, the reply goes to the client. The
/// result is that of [`answer_from_entries`] on the entries the store gave.
pub fn try_answer_request<DB: Database, N: Network>(
    db: &mut DB,
    now: u64,
    net: &N,
    r: &SimplifiedRequest,
    max_ttl: u32,
    min_ttl: u32,
) -> (res: Result<TryAnswerRequestResult, CacheError>)
    ensures
        res is Err ==> res->Err_0 != CacheError::Parse,
        r.q@.len() == 0 && r.inhibit_send ==> res == Ok::<TryAnswerRequestResult, CacheError>(
            TryAnswerRequestResult::Resolved(AdjustTtlResult::Fresh),
        ),
        res is Ok ==> exists|es: Seq<Option<CacheEntry>>|
            es.len() == r.q@.len() && res->Ok_0 == answer_result(
                #[trigger] answer_fold(r.q@, es, now, max_ttl, min_ttl),
            ),
{
    let mut entries: Vec<Option<CacheEntry>> = Vec::with_capacity(r.q.len());
    let mut i: usize = 0;
    while i < r.q.len()
        invariant
            i <= r.q@.len(),
            entries@.len() == i,
        decreases r.q.len() - i,
    {
        let e = match db.get(r.q[i].dom.as_str()) {
            Ok(e) => e,
            Err(msg) => return Err(CacheError::Io(msg)),
        };
        entries.push(e);
        i = i + 1;
    }
    let (result, ans_a4, ans_a6) = answer_from_entries(r, &entries, now, max_ttl, min_ttl);
    if let TryAnswerRequestResult::Resolved(_) = result {
        if !r.inhibit_send {
            send_dns_reply(net, r, &ans_a4, &ans_a6)?;
        }
    }
    assert(result == answer_result(answer_fold(r.q@, entries@, now, max_ttl, min_ttl)));
    Ok(result)
}

/// What the client path does after the read path: `None` when it is done
/// (answered from cache), `Some(inhibit)` to register the request, as a
/// background refresh if `inhibit`, and forward it upstream.
pub open spec fn client_action(result: TryAnswerRequestResult, neg_ttl: u64) -> Option<bool> {
    match result {
        TryAnswerRequestResult::Resolved(AdjustTtlResult::Fresh) => None,
        TryAnswerRequestResult::Resolved(AdjustTtlResult::Expired) => Some(true),
        TryAnswerRequestResult::Resolved(AdjustTtlResult::Negative(age)) => if age >= neg_ttl {
            Some(true)
        } else {
            None
        },
        TryAnswerRequestResult::UnknownsRemain(_) => Some(false),
    }
}

/// Decides the client path after the read path; see [`client_action`].
pub fn client_decision(result: TryAnswerRequestResult, neg_ttl: u64) -> (r: Option<bool>)
    ensures
        r == client_action(result, neg_ttl),
{
    match result {
        TryAnswerRequestResult::Resolved(AdjustTtlResult::Fresh) => None,
        TryAnswerRequestResult::Resolved(AdjustTtlResult::Expired) => Some(true),
        TryAnswerRequestResult::Resolved(AdjustTtlResult::Negative(age)) => {
            if age >= neg_ttl {
                Some(true)
            } else {
                None
            }
        },
        TryAnswerRequestResult::UnknownsRemain(_) => Some(false),
    }
}

/// Whether a subscriber is done with after an upstream answer: answered, or
/// refreshed; an expired answer leaves a background refresh waiting.
pub open spec fn settles(result: TryAnswerRequestResult, dummy: bool) -> bool {
    match result {
        TryAnswerRequestResult::Resolved(AdjustTtlResult::Fresh) => true,
        TryAnswerRequestResult::Resolved(AdjustTtlResult::Expired) => !dummy,
        TryAnswerRequestResult::Resolved(AdjustTtlResult::Negative(_)) => true,
        TryAnswerRequestResult::UnknownsRemain(_) => false,
    }
}

/// Decides whether a subscriber is settled; see [`settles`].
pub fn is_settled(result: TryAnswerRequestResult, dummy: bool) -> (r: bool)
    ensures
        r == settles(result, dummy),
{
    match result {
        TryAnswerRequestResult::Resolved(AdjustTtlResult::Fresh) => true,
        TryAnswerRequestResult::Resolved(AdjustTtlResult::Expired) => !dummy,
        TryAnswerRequestResult::Resolved(AdjustTtlResult::Negative(_)) => true,
        TryAnswerRequestResult::UnknownsRemain(_) => false,
    }
}


/// Whether the family is stored, holds records, and none has run out.
pub open spec fn family_fresh(f: Option<CacheEntry2>, now: u64, max_ttl: u32, min_ttl: u32) -> bool {
    f is Some && f->Some_0.a@.len() > 0 && forall|j: int|
        0 <= j < f->Some_0.a@.len() ==> !is_expired(
            #[trigger] f->Some_0.a@[j].ttl,
            now,
            f->Some_0.t,
            max_ttl,
            min_ttl,
        )
}

/// Whether the stored entry answers the question fresh.
pub open spec fn answers_fresh(
    q: SimplifiedQuestion,
    e: Option<CacheEntry>,
    now: u64,
    max_ttl: u32,
    min_ttl: u32,
) -> bool {
    e is Some && (q.a4 ==> family_fresh(e->Some_0.a4, now, max_ttl, min_ttl)) && (q.a6 ==> family_fresh(
        e->Some_0.a6,
        now,
        max_ttl,
        min_ttl,
    ))
}

/// Whether the stored entry holds every family that the question asks.
pub open spec fn covers(q: SimplifiedQuestion, e: Option<CacheEntry>) -> bool {
    e is Some && (q.a4 ==> e->Some_0.a4 is Some) && (q.a6 ==> e->Some_0.a6 is Some)
}

proof fn lemma_fold_covered(qs: Seq<SimplifiedQuestion>, es: Seq<Option<CacheEntry>>, now: u64, max_ttl: u32, min_ttl: u32)
    requires
        es.len() == qs.len(),
        forall|i: int| 0 <= i < qs.len() ==> covers(#[trigger] qs[i], es[i]),
    ensures
        answer_fold(qs, es, now, max_ttl, min_ttl).unknowns == 0,
    decreases qs.len(),
{
    if qs.len() > 0 {
        let n = qs.len() - 1;
        assert forall|i: int| 0 <= i < n implies covers(#[trigger] qs.drop_last()[i], es.take(n)[i]) by {
            assert(covers(qs[i], es[i]));
        }
        lemma_fold_covered(qs.drop_last(), es.take(n), now, max_ttl, min_ttl);
        assert(covers(qs[n], es[n]));
    }
}

proof fn lemma_fold_fresh(qs: Seq<SimplifiedQuestion>, es: Seq<Option<CacheEntry>>, now: u64, max_ttl: u32, min_ttl: u32)
    requires
        es.len() == qs.len(),
        forall|i: int| 0 <= i < qs.len() ==> answers_fresh(#[trigger] qs[i], es[i], now, max_ttl, min_ttl),
    ensures
        answer_fold(qs, es, now, max_ttl, min_ttl).unknowns == 0,
        answer_fold(qs, es, now, max_ttl, min_ttl).status == AdjustTtlResult::Fresh,
    decreases qs.len(),
{
    if qs.len() > 0 {
        let n = qs.len() - 1;
        assert forall|i: int| 0 <= i < n implies answers_fresh(#[trigger] qs.drop_last()[i], es.take(n)[i], now, max_ttl, min_ttl) by {
            assert(answers_fresh(qs[i], es[i], now, max_ttl, min_ttl));
        }
        lemma_fold_fresh(qs.drop_last(), es.take(n), now, max_ttl, min_ttl);
        let q = qs[n];
        assert(answers_fresh(q, es[n], now, max_ttl, min_ttl));
        let ce = es[n]->Some_0;
        if q.a4 {
            let set = ce.a4->Some_0;
            let v = records_view(set.a@);
            assert(!(exists|i: int| 0 <= i < v.len() && is_expired(v[i].ttl, now, set.t, max_ttl, min_ttl))) by {
                assert forall|i: int| 0 <= i < v.len() implies !is_expired(v[i].ttl, now, set.t, max_ttl, min_ttl) by {
                    assert(v[i].ttl == set.a@[i].ttl);
                }
            }
        }
        if q.a6 {
            let set = ce.a6->Some_0;
            let v = records_view(set.a@);
            assert(!(exists|i: int| 0 <= i < v.len() && is_expired(v[i].ttl, now, set.t, max_ttl, min_ttl))) by {
                assert forall|i: int| 0 <= i < v.len() implies !is_expired(v[i].ttl, now, set.t, max_ttl, min_ttl) by {
                    assert(v[i].ttl == set.a@[i].ttl);
                }
            }
        }
    }
}

/// A cache hit is final: when the store answers every question of a client
/// request fresh, the read path resolves it fresh, so the reply goes out
/// from the cache and the request is neither registered nor forwarded.
pub proof fn lemma_fresh_cache_hit(
    r: SimplifiedRequest,
    es: Seq<Option<CacheEntry>>,
    now: u64,
    max_ttl: u32,
    min_ttl: u32,
    neg_ttl: u64,
)
    requires
        es.len() == r.q@.len(),
        forall|i: int| 0 <= i < r.q@.len() ==> answers_fresh(#[trigger] r.q@[i], es[i], now, max_ttl, min_ttl),
    ensures
        answer_result(answer_fold(r.q@, es, now, max_ttl, min_ttl)) == TryAnswerRequestResult::Resolved(
            AdjustTtlResult::Fresh,
        ),
        client_action(answer_result(answer_fold(r.q@, es, now, max_ttl, min_ttl)), neg_ttl) is None,
{
    lemma_fold_fresh(r.q@, es, now, max_ttl, min_ttl);
}

/// The same stored entry for each of `n` questions.
pub open spec fn repeated(e: CacheEntry, n: nat) -> Seq<Option<CacheEntry>> {
    Seq::new(n, |j: int| Some(e))
}

/// Coalesced requests are answered together: when the entry stored for a
/// domain holds every family that the waiting requests for that domain ask,
/// each of them that is not a background refresh is resolved, gets its
/// reply, and is settled.
pub proof fn lemma_coalesced_requests_answered(
    reqs: Seq<SimplifiedRequest>,
    dom: Seq<char>,
    e: CacheEntry,
    now: u64,
    max_ttl: u32,
    min_ttl: u32,
)
    requires
        forall|i: int| 0 <= i < reqs.len() ==> !(#[trigger] reqs[i]).inhibit_send,
        forall|i: int, j: int|
            0 <= i < reqs.len() && 0 <= j < reqs[i].q@.len() ==> (#[trigger] reqs[i].q@[j]).dom@ == dom && covers(
                reqs[i].q@[j],
                Some(e),
            ),
    ensures
        forall|i: int|
            0 <= i < reqs.len() ==> {
                let res = answer_result(
                    answer_fold(#[trigger] reqs[i].q@, repeated(e, reqs[i].q@.len()), now, max_ttl, min_ttl),
                );
                &&& res is Resolved
                &&& settles(res, reqs[i].inhibit_send)
            },
{
    assert forall|i: int| 0 <= i < reqs.len() implies {
        let res = answer_result(
            answer_fold(#[trigger] reqs[i].q@, repeated(e, reqs[i].q@.len()), now, max_ttl, min_ttl),
        );
        &&& res is Resolved
        &&& settles(res, reqs[i].inhibit_send)
    } by {
        let qs = reqs[i].q@;
        let es = repeated(e, qs.len());
        assert forall|j: int| 0 <= j < qs.len() implies covers(#[trigger] qs[j], es[j]) by {
            assert(covers(reqs[i].q@[j], Some(e)));
        }
        lemma_fold_covered(qs, es, now, max_ttl, min_ttl);
    }
}

} // verus!
