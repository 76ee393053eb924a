//! TTL arithmetic of the cache read path.
use vstd::prelude::*;
use crate::record::{AddrTtl, AddrTtlView, records_view};

verus! {

/// Outcome of adjusting one record set to the current time.
#[derive(Debug, Clone, Copy, PartialEq, Eq, Structural)]
pub enum AdjustTtlResult {
    /// Every record is still valid.
    Fresh,
    /// At least one record has run out its TTL.
    Expired,
    /// The set is a negative answer, this many seconds old.
    Negative(u64),
}

/// `ttl` limited to `[low, high]`; `low` wins where the bounds cross.
pub open spec fn clamp_spec(low: u32, ttl: u32, high: u32) -> u32 {
    if ttl < low {
        low
    } else if ttl > high {
        high
    } else {
        ttl
    }
}

/// Seconds from `then` to `now`, zero if `now` is earlier.
pub open spec fn elapsed(now: u64, then: u64) -> u64 {
    if now >= then {
        (now - then) as u64
    } else {
        0
    }
}

/// The TTL served at `now` for a record stored at `then` with TTL `ttl`.
pub open spec fn served_ttl(ttl: u32, now: u64, then: u64, max_ttl: u32, min_ttl: u32) -> u32 {
    let c = clamp_spec(min_ttl, ttl, max_ttl);
    let d = elapsed(now, then);
    if d >= c as u64 {
        0
    } else {
        (c - d) as u32
    }
}

/// Whether a record stored at `then` has run out its TTL at `now`.
pub open spec fn is_expired(ttl: u32, now: u64, then: u64, max_ttl: u32, min_ttl: u32) -> bool {
    elapsed(now, then) >= clamp_spec(min_ttl, ttl, max_ttl) as u64
}

/// The records with their TTLs as served at `now`.
pub open spec fn adjusted_records(
    v: Seq<AddrTtlView>,
    now: u64,
    then: u64,
    max_ttl: u32,
    min_ttl: u32,
) -> Seq<AddrTtlView> {
    v.map_values(
        |x: AddrTtlView| AddrTtlView { ttl: served_ttl(x.ttl, now, then, max_ttl, min_ttl), ip: x.ip },
    )
}

/// The status of a record set at `now`.
pub open spec fn adjust_status(
    v: Seq<AddrTtlView>,
    now: u64,
    then: u64,
    max_ttl: u32,
    min_ttl: u32,
) -> AdjustTtlResult {
    if v.len() == 0 {
        AdjustTtlResult::Negative(elapsed(now, then))
    } else if exists|i: int| 0 <= i < v.len() && is_expired(v[i].ttl, now, then, max_ttl, min_ttl) {
        AdjustTtlResult::Expired
    } else {
        AdjustTtlResult::Fresh
    }
}

/// `ttl` limited to `[low, high]`.
pub fn clamp_ttl(low: u32, ttl: u32, high: u32) -> (r: u32)
    ensures
        r == clamp_spec(low, ttl, high),
{
    if ttl < low {
        low
    } else if ttl > high {
        high
    } else {
        ttl
    }
}

/// Copies a record, giving it a new TTL.
pub fn with_ttl(x: &AddrTtl, ttl: u32) -> (r: AddrTtl)
    ensures
        r@ == (AddrTtlView { ttl, ip: x.ip@ }),
{
    let ip = x.ip.clone();
    assert(ip@ =~= x.ip@);
    AddrTtl { ttl, ip }
}

/// Adjusts the TTLs of a record set stored at `then` to the time `now`,
/// clamping each stored TTL into `[min_ttl, max_ttl]` first.
pub fn adjust_ttl(v: &Vec<AddrTtl>, now: u64, then: u64, max_ttl: u32, min_ttl: u32) -> (r: (
    AdjustTtlResult,
    Vec<AddrTtl>,
))
    ensures
        r.0 == adjust_status(records_view(v@), now, then, max_ttl, min_ttl),
        records_view(r.1@) == adjusted_records(records_view(v@), now, then, max_ttl, min_ttl),
{
    let ghost vv = records_view(v@);
    let mut out: Vec<AddrTtl> = Vec::with_capacity(v.len());
    let mut expired = false;
    let d: u64 = now.saturating_sub(then);
    let mut i: usize = 0;
    while i < v.len()
        invariant
            i <= v.len(),
            vv == records_view(v@),
            d == elapsed(now, then),
            records_view(out@) =~= adjusted_records(vv.take(i as int), now, then, max_ttl, min_ttl),
            expired <==> exists|j: int| 0 <= j < i && is_expired(vv[j].ttl, now, then, max_ttl, min_ttl),
        decreases v.len() - i,
    {
        let ttl = clamp_ttl(min_ttl, v[i].ttl, max_ttl);
        let newttl: u32;
        if d >= ttl as u64 {
            newttl = 0;
            expired = true;
        } else {
            newttl = ttl - (d as u32);
        }
        let rec = with_ttl(&v[i], newttl);
        let ghost prev = out@;
        out.push(rec);
        proof {
            assert(vv.take(i as int + 1) =~= vv.take(i as int).push(vv[i as int]));
            assert(records_view(out@) =~= records_view(prev).push(rec@));
        }
        i = i + 1;
    }
    assert(vv.take(v.len() as int) =~= vv);
    let result = if v.len() == 0 {
        AdjustTtlResult::Negative(d)
    } else if expired {
        AdjustTtlResult::Expired
    } else {
        AdjustTtlResult::Fresh
    };
    (result, out)
}

/// Served TTLs only go down with time: a record stored at `then` and served
/// at `t1` and again at a later `t2`, from the same stored set, has at `t2` a TTL no larger than
/// its TTL at `t1` less the seconds between, and never below zero.
pub proof fn lemma_ttl_monotone_decrease(
    ttl: u32,
    then: u64,
    t1: u64,
    t2: u64,
    max_ttl: u32,
    min_ttl: u32,
)
    requires
        then <= t1,
        t1 < t2,
    ensures
        served_ttl(ttl, t2, then, max_ttl, min_ttl) as int <= if served_ttl(ttl, t1, then, max_ttl, min_ttl)
            - (t2 - t1) > 0 {
            served_ttl(ttl, t1, then, max_ttl, min_ttl) - (t2 - t1)
        } else {
            0
        },
{
}

/// The same law over whole record sets as the read path adjusts them.
pub proof fn lemma_adjusted_records_monotone(
    v: Seq<AddrTtlView>,
    then: u64,
    t1: u64,
    t2: u64,
    max_ttl: u32,
    min_ttl: u32,
)
    requires
        then <= t1,
        t1 < t2,
    ensures
        forall|i: int|
            0 <= i < v.len() ==> {
                let a = #[trigger] adjusted_records(v, t1, then, max_ttl, min_ttl)[i].ttl as int;
                let b = adjusted_records(v, t2, then, max_ttl, min_ttl)[i].ttl as int;
                b <= if a - (t2 - t1) > 0 { a - (t2 - t1) } else { 0 }
            },
{
    assert forall|i: int| 0 <= i < v.len() implies {
        let a = #[trigger] adjusted_records(v, t1, then, max_ttl, min_ttl)[i].ttl as int;
        let b = adjusted_records(v, t2, then, max_ttl, min_ttl)[i].ttl as int;
        b <= if a - (t2 - t1) > 0 { a - (t2 - t1) } else { 0 }
    } by {
        lemma_ttl_monotone_decrease(v[i].ttl, then, t1, t2, max_ttl, min_ttl);
    }
}

} // verus!
