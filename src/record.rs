//! The cache entry model: what is stored for each domain name.
use vstd::prelude::*;

verus! {

/// One resource record: an IPv4 (4 bytes) or IPv6 (16 bytes) address with
/// the TTL that the upstream server gave it, in seconds.
#[derive(Debug, Clone, PartialEq, Eq, Hash, Default)]
pub struct AddrTtl {
    /// Time to live, seconds.
    pub ttl: u32,
    /// The address octets.
    pub ip: Vec<u8>,
}

/// The records of one address family of a domain, as answered at time `t`.
/// An empty `a` is a negative answer.
#[derive(Debug, Clone, PartialEq, Eq, Hash, Default)]
pub struct CacheEntry2 {
    /// Answer time, UNIX timestamp, seconds.
    pub t: u64,
    /// The records, in the order the upstream gave them.
    pub a: Vec<AddrTtl>,
}

/// What is remembered of a domain. `None` means the family was never queried.
#[derive(Debug, Clone, PartialEq, Eq, Hash, Default)]
pub struct CacheEntry {
    /// A records.
    pub a4: Option<CacheEntry2>,
    /// AAAA records.
    pub a6: Option<CacheEntry2>,
}

/// Mathematical value of an [`AddrTtl`].
pub struct AddrTtlView {
    pub ttl: u32,
    pub ip: Seq<u8>,
}

/// Mathematical value of a [`CacheEntry2`].
pub struct RecordSetView {
    pub t: u64,
    pub a: Seq<AddrTtlView>,
}

/// Mathematical value of a [`CacheEntry`].
pub struct CacheEntryView {
    pub a4: Option<RecordSetView>,
    pub a6: Option<RecordSetView>,
}

impl View for AddrTtl {
    type V = AddrTtlView;

    open spec fn view(&self) -> AddrTtlView {
        AddrTtlView { ttl: self.ttl, ip: self.ip@ }
    }
}

/// The records, as values.
pub open spec fn records_view(v: Seq<AddrTtl>) -> Seq<AddrTtlView> {
    v.map_values(|x: AddrTtl| x@)
}

impl View for CacheEntry2 {
    type V = RecordSetView;

    open spec fn view(&self) -> RecordSetView {
        RecordSetView { t: self.t, a: records_view(self.a@) }
    }
}

/// A family, as a value.
pub open spec fn family_view(f: Option<CacheEntry2>) -> Option<RecordSetView> {
    match f {
        Some(s) => Some(s@),
        None => None,
    }
}

impl View for CacheEntry {
    type V = CacheEntryView;

    open spec fn view(&self) -> CacheEntryView {
        CacheEntryView { a4: family_view(self.a4), a6: family_view(self.a6) }
    }
}

/// Whether a family of a stored entry holds at least one record.
pub open spec fn holds_records(f: Option<CacheEntry2>) -> bool {
    f is Some && f->Some_0.a@.len() > 0
}

/// The family that the merge keeps: the stored one where the new one is
/// absent, or where the new one is empty and the stored one is not.
pub open spec fn merged_family(new: Option<CacheEntry2>, old: Option<CacheEntry2>) -> Option<CacheEntry2> {
    if new is None && old is Some {
        old
    } else if new is Some && new->Some_0.a@.len() == 0 && holds_records(old) {
        old
    } else {
        new
    }
}

/// Merges a freshly built entry with the stored one, so that a family with
/// records is never replaced by an absent or empty one.
pub fn merge_entry(new: CacheEntry, old: CacheEntry) -> (r: CacheEntry)
    ensures
        r.a4 == merged_family(new.a4, old.a4),
        r.a6 == merged_family(new.a6, old.a6),
{
    CacheEntry { a4: merge_family(new.a4, old.a4), a6: merge_family(new.a6, old.a6) }
}

fn merge_family(new: Option<CacheEntry2>, old: Option<CacheEntry2>) -> (r: Option<CacheEntry2>)
    ensures
        r == merged_family(new, old),
{
    let mut use_cached = false;
    if new.is_none() && old.is_some() {
        use_cached = true;
    }
    if let Some(n) = &new {
        if let Some(o) = &old {
            if n.a.len() == 0 && o.a.len() != 0 {
                use_cached = true;
            }
        }
    }
    if use_cached {
        old
    } else {
        new
    }
}

/// A stored family that holds records survives a merge with a new entry
/// whose same family is empty: the stored family is kept as it was.
pub proof fn lemma_refuse_to_forget(new: CacheEntry, old: CacheEntry)
    requires
        holds_records(old.a4),
        new.a4 is Some,
        new.a4->Some_0.a@.len() == 0,
    ensures
        merged_family(new.a4, old.a4) == old.a4,
{
}

} // verus!
