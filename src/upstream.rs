//! The transformations of the upstream reply pipeline: CNAME map, owner
//! resolution, and candidate cache entries.
use vstd::prelude::*;
use vstd::slice::slice_to_vec;
use crate::record::{AddrTtl, AddrTtlView, CacheEntry, CacheEntry2, CacheEntryView, RecordSetView};
use crate::request::SimplifiedRequest;
use crate::encode::{CLASS_IN, TYPE_A, TYPE_AAAA, TYPE_ALL};
use crate::wire::{DataModel, PacketModel, QuestionModel, RecordData, RecordModel, WirePacket};

verus! {

/// How many CNAME hops a resolution may take before the reply is refused.
pub const CNAME_HOP_LIMIT: u32 = 10;

/// Whether a live pending request under token `t` has transaction id `id`.
pub open spec fn token_matches(pending: Map<usize, SimplifiedRequest>, t: usize, id: u16) -> bool {
    pending.contains_key(t) && pending[t].id == id
}

/// Whether `dom` has subscribers, one of them a live request with id `id`.
pub open spec fn dom_subscribed(
    pending: Map<usize, SimplifiedRequest>,
    subs: Map<Seq<char>, Seq<usize>>,
    dom: Seq<char>,
    id: u16,
) -> bool {
    subs.contains_key(dom) && exists|k: int|
        0 <= k < subs[dom].len() && #[trigger] token_matches(pending, subs[dom][k], id)
}

/// Whether every echoed question of the reply was asked by a live request
/// with the reply's id.
pub open spec fn questions_subscribed(
    pending: Map<usize, SimplifiedRequest>,
    subs: Map<Seq<char>, Seq<usize>>,
    p: PacketModel,
) -> bool {
    forall|i: int|
        0 <= i < p.questions.len() ==> dom_subscribed(pending, subs, #[trigger] p.questions[i].qname, p.id)
}

/// The (target, owner) pairs of the CNAME records, in order.
pub open spec fn cname_pairs(answers: Seq<RecordModel>) -> Seq<(Seq<char>, Seq<char>)>
    decreases answers.len(),
{
    if answers.len() == 0 {
        seq![]
    } else {
        let prev = cname_pairs(answers.drop_last());
        match answers.last().data {
            DataModel::Cname(target) => prev.push((target, answers.last().name)),
            _ => prev,
        }
    }
}

/// The map from alias target to owner; a later pair replaces an earlier one.
pub open spec fn redirs_map(pairs: Seq<(Seq<char>, Seq<char>)>) -> Map<Seq<char>, Seq<char>>
    decreases pairs.len(),
{
    if pairs.len() == 0 {
        Map::empty()
    } else {
        redirs_map(pairs.drop_last()).insert(pairs.last().0, pairs.last().1)
    }
}

/// The CNAME map of a reply's answers: target to owner.
pub open spec fn cname_map(answers: Seq<RecordModel>) -> Map<Seq<char>, Seq<char>> {
    redirs_map(cname_pairs(answers))
}

/// The pairs of names, as values.
pub open spec fn pairs_view(v: Seq<(String, String)>) -> Seq<(Seq<char>, Seq<char>)> {
    v.map_values(|x: (String, String)| (x.0@, x.1@))
}

/// Builds the CNAME map of a reply as (target, owner) pairs.
pub fn get_cname_redirs(p: &WirePacket) -> (r: Vec<(String, String)>)
    ensures
        pairs_view(r@) == cname_pairs(p@.answers),
{
    let mut cnames: Vec<(String, String)> = Vec::new();
    let mut i: usize = 0;
    while i < p.answers.len()
        invariant
            i <= p.answers@.len(),
            pairs_view(cnames@) == cname_pairs(p@.answers.take(i as int)),
        decreases p.answers.len() - i,
    {
        let ans = &p.answers[i];
        proof {
            assert(p@.answers.take(i + 1).drop_last() =~= p@.answers.take(i as int));
        }
        if let RecordData::Cname(target) = &ans.data {
            let ghost prev = cnames@;
            cnames.push((target.clone(), ans.name.clone()));
            assert(pairs_view(cnames@) =~= pairs_view(prev).push((target@, ans.name@)));
        }
        i = i + 1;
    }
    assert(p@.answers.take(p@.answers.len() as int) =~= p@.answers);
    cnames
}

proof fn lemma_redirs_suffix(pairs: Seq<(Seq<char>, Seq<char>)>, i: int, k: Seq<char>)
    requires
        0 <= i <= pairs.len(),
        forall|j: int| i <= j < pairs.len() ==> (#[trigger] pairs[j]).0 != k,
    ensures
        redirs_map(pairs).contains_key(k) == redirs_map(pairs.take(i)).contains_key(k),
        redirs_map(pairs).contains_key(k) ==> redirs_map(pairs)[k] == redirs_map(pairs.take(i))[k],
    decreases pairs.len(),
{
    if i < pairs.len() {
        let pre = pairs.drop_last();
        assert(pairs.last() == pairs[pairs.len() - 1]);
        assert forall|j: int| i <= j < pre.len() implies (#[trigger] pre[j]).0 != k by {
            assert(pre[j] == pairs[j]);
        }
        lemma_redirs_suffix(pre, i, k);
        assert(pre.take(i) =~= pairs.take(i));
    } else {
        assert(pairs.take(i) =~= pairs);
    }
}

/// Looks a name up in the CNAME pairs: the owner of the last pair whose
/// target it is.
fn cname_lookup<'a>(pairs: &'a Vec<(String, String)>, k: &String) -> (r: Option<&'a String>)
    ensures
        match r {
            Some(v) => redirs_map(pairs_view(pairs@)).contains_key(k@) && v@ == redirs_map(
                pairs_view(pairs@),
            )[k@],
            None => !redirs_map(pairs_view(pairs@)).contains_key(k@),
        },
{
    let ghost pv = pairs_view(pairs@);
    let mut i = pairs.len();
    while i > 0
        invariant
            i <= pairs@.len(),
            pv == pairs_view(pairs@),
            forall|j: int| i <= j < pv.len() ==> (#[trigger] pv[j]).0 != k@,
        decreases i,
    {
        if pairs[i - 1].0 == *k {
            proof {
                lemma_redirs_suffix(pv, i as int, k@);
                assert(pv.take(i as int).drop_last() =~= pv.take(i - 1));
            }
            return Some(&pairs[i - 1].1);
        }
        i = i - 1;
    }
    proof {
        lemma_redirs_suffix(pv, 0, k@);
    }
    None
}

/// The name reached from `name` by following the map, or `None` when the
/// `budget`-th hop is taken (the chain is too long, or a cycle).
pub open spec fn resolve_owner(m: Map<Seq<char>, Seq<char>>, name: Seq<char>, budget: nat) -> Option<
    Seq<char>,
>
    decreases budget,
{
    if !m.contains_key(name) {
        Some(name)
    } else if budget <= 1 {
        None
    } else {
        resolve_owner(m, m[name], (budget - 1) as nat)
    }
}

/// Follows the CNAME map from `name`; see [`resolve_owner`].
fn resolve_name(cnames: &Vec<(String, String)>, name: &String) -> (r: Option<String>)
    ensures
        match resolve_owner(redirs_map(pairs_view(cnames@)), name@, CNAME_HOP_LIMIT as nat) {
            Some(d) => r is Some && r->Some_0@ == d,
            None => r is None,
        },
{
    let ghost m = redirs_map(pairs_view(cnames@));
    let mut dom = name.clone();
    let mut limit: u32 = CNAME_HOP_LIMIT;
    loop
        invariant
            1 <= limit <= CNAME_HOP_LIMIT,
            m == redirs_map(pairs_view(cnames@)),
            resolve_owner(m, dom@, limit as nat) == resolve_owner(m, name@, CNAME_HOP_LIMIT as nat),
        decreases limit,
    {
        match cname_lookup(cnames, &dom) {
            Some(x) => {
                dom = x.clone();
                limit = limit - 1;
                if limit == 0 {
                    return None;
                }
            },
            None => {
                return Some(dom);
            },
        }
    }
}

/// Whether the chain from `name` has at least `n` hops.
pub open spec fn has_hops(m: Map<Seq<char>, Seq<char>>, name: Seq<char>, n: nat) -> bool
    decreases n,
{
    n == 0 || (m.contains_key(name) && has_hops(m, m[name], (n - 1) as nat))
}

/// An A or AAAA answer after CNAME resolution.
#[derive(Debug)]
pub struct ResolvedAnswer {
    /// The originally queried name.
    pub dom: String,
    /// Whether the address is IPv6.
    pub v6: bool,
    /// Address octets.
    pub ip: Vec<u8>,
    /// TTL, seconds.
    pub ttl: u32,
}

/// Mathematical value of a [`ResolvedAnswer`].
pub struct ResolvedModel {
    pub dom: Seq<char>,
    pub v6: bool,
    pub ip: Seq<u8>,
    pub ttl: u32,
}

impl View for ResolvedAnswer {
    type V = ResolvedModel;

    open spec fn view(&self) -> ResolvedModel {
        ResolvedModel { dom: self.dom@, v6: self.v6, ip: self.ip@, ttl: self.ttl }
    }
}

/// The resolved answers, as values.
pub open spec fn resolved_view(v: Seq<ResolvedAnswer>) -> Seq<ResolvedModel> {
    v.map_values(|x: ResolvedAnswer| x@)
}

/// Whether an answer record is an A or AAAA record of class IN.
pub open spec fn is_address_record(a: RecordModel) -> bool {
    a.class == CLASS_IN && (a.data is A || a.data is Aaaa)
}

/// The address answers of a reply with owners resolved through the CNAME
/// map; `None` if one of them needs the hop limit or more.
pub open spec fn resolved_answers(answers: Seq<RecordModel>, m: Map<Seq<char>, Seq<char>>) -> Option<
    Seq<ResolvedModel>,
>
    decreases answers.len(),
{
    if answers.len() == 0 {
        Some(seq![])
    } else {
        match resolved_answers(answers.drop_last(), m) {
            None => None,
            Some(prev) => {
                let a = answers.last();
                if !is_address_record(a) {
                    Some(prev)
                } else {
                    match resolve_owner(m, a.name, CNAME_HOP_LIMIT as nat) {
                        None => None,
                        Some(d) => Some(
                            prev.push(
                                ResolvedModel {
                                    dom: d,
                                    v6: a.data is Aaaa,
                                    ip: match a.data {
                                        DataModel::A(ip) => ip,
                                        DataModel::Aaaa(ip) => ip,
                                        _ => seq![],
                                    },
                                    ttl: a.ttl,
                                },
                            ),
                        ),
                    }
                }
            },
        }
    }
}

/// Resolves the owner of each A and AAAA answer of class IN back through
/// the CNAME map to the name originally asked; `None` when a chain reaches
/// the hop limit.
pub fn make_list_of_ips(p: &WirePacket, cnames: &Vec<(String, String)>) -> (r: Option<Vec<ResolvedAnswer>>)
    requires
        pairs_view(cnames@) == cname_pairs(p@.answers),
    ensures
        match resolved_answers(p@.answers, cname_map(p@.answers)) {
            Some(v) => r is Some && resolved_view(r->Some_0@) == v,
            None => r is None,
        },
        r is Some ==> addresses_sized(resolved_view(r->Some_0@)),
{
    let ghost m = cname_map(p@.answers);
    let mut out: Vec<ResolvedAnswer> = Vec::new();
    let mut i: usize = 0;
    while i < p.answers.len()
        invariant
            i <= p.answers@.len(),
            m == redirs_map(pairs_view(cnames@)),
            m == cname_map(p@.answers),
            resolved_answers(p@.answers.take(i as int), m) == Some(resolved_view(out@)),
            addresses_sized(resolved_view(out@)),
        decreases p.answers.len() - i,
    {
        let ans = &p.answers[i];
        proof {
            assert(p@.answers.take(i + 1).drop_last() =~= p@.answers.take(i as int));
        }
        let is_addr = ans.class == CLASS_IN && match &ans.data {
            RecordData::A(_) => true,
            RecordData::Aaaa(_) => true,
            _ => false,
        };
        if is_addr {
            let resolved = resolve_name(cnames, &ans.name);
            let dom = match resolved {
                Some(d) => d,
                None => {
                    proof {
                        assert(p@.answers.take(i + 1).last() == ans@);
                        assert(is_address_record(ans@));
                        assert(resolved_answers(p@.answers.take(i + 1), m) is None);
                        lemma_resolved_prefix_none(p@.answers, i + 1, m);
                    }
                    return None;
                },
            };
            let (v6, ip) = match &ans.data {
                RecordData::Aaaa(ip6) => {
                    assert(ip6@.len() == 16);
                    (true, slice_to_vec(ip6.as_slice()))
                },
                RecordData::A(ip4) => {
                    assert(ip4@.len() == 4);
                    (false, slice_to_vec(ip4.as_slice()))
                },
                _ => (false, Vec::new()),
            };
            assert(ip@.len() == if v6 { 16int } else { 4int });
            let item = ResolvedAnswer { dom, v6, ip, ttl: ans.ttl };
            let ghost prev = out@;
            out.push(item);
            assert(resolved_view(out@) =~= resolved_view(prev).push(item@));
        }
        i = i + 1;
    }
    assert(p@.answers.take(p@.answers.len() as int) =~= p@.answers);
    Some(out)
}

pub proof fn lemma_resolved_prefix_none(answers: Seq<RecordModel>, i: int, m: Map<Seq<char>, Seq<char>>)
    requires
        0 <= i <= answers.len(),
        resolved_answers(answers.take(i), m) is None,
    ensures
        resolved_answers(answers, m) is None,
    decreases answers.len() - i,
{
    if i < answers.len() {
        assert(answers.take(i + 1).drop_last() =~= answers.take(i));
        lemma_resolved_prefix_none(answers, i + 1, m);
    } else {
        assert(answers.take(i) =~= answers);
    }
}

/// CNAME chains are bounded: when an A or AAAA answer of class IN starts a
/// chain of at least the hop limit (ten) of CNAME links, a long chain or a
/// cycle, owner resolution refuses the whole reply, so `make_list_of_ips`
/// returns `None` after at most ten lookups for that answer.
pub proof fn lemma_long_chain_refused(answers: Seq<RecordModel>, i: int)
    requires
        0 <= i < answers.len(),
        is_address_record(answers[i]),
        has_hops(cname_map(answers), answers[i].name, CNAME_HOP_LIMIT as nat),
    ensures
        resolved_answers(answers, cname_map(answers)) is None,
{
    let cm = cname_map(answers);
    lemma_long_chain_unresolved(cm, answers[i].name, CNAME_HOP_LIMIT as nat);
    let pre = answers.take(i + 1);
    assert(pre.drop_last() =~= answers.take(i));
    assert(pre.last() == answers[i]);
    assert(resolved_answers(pre, cm) is None);
    lemma_resolved_prefix_none(answers, i + 1, cm);
}

/// A chain of at least `budget` hops (at least one) exhausts the budget.
pub proof fn lemma_long_chain_unresolved(m: Map<Seq<char>, Seq<char>>, name: Seq<char>, budget: nat)
    requires
        budget >= 1,
        has_hops(m, name, budget),
    ensures
        resolve_owner(m, name, budget) is None,
    decreases budget,
{
    if budget > 1 {
        lemma_long_chain_unresolved(m, m[name], (budget - 1) as nat);
    }
}


/// An empty record set taken at `now`.
pub open spec fn empty_set(now: u64) -> RecordSetView {
    RecordSetView { t: now, a: seq![] }
}

/// The entry of `k` in `m`, or one with no families.
pub open spec fn entry_or_empty(m: Map<Seq<char>, CacheEntryView>, k: Seq<char>) -> CacheEntryView {
    if m.contains_key(k) {
        m[k]
    } else {
        CacheEntryView { a4: None, a6: None }
    }
}

/// An echoed question of class IN gives its name an entry, with an empty
/// record set at `now` for each family that its QTYPE asks for.
pub open spec fn seed_question(m: Map<Seq<char>, CacheEntryView>, q: QuestionModel, now: u64) -> Map<
    Seq<char>,
    CacheEntryView,
> {
    if q.qclass != CLASS_IN {
        m
    } else {
        let e = entry_or_empty(m, q.qname);
        let e1 = if q.qtype == TYPE_A || q.qtype == TYPE_ALL {
            CacheEntryView { a4: Some(empty_set(now)), ..e }
        } else {
            e
        };
        let e2 = if q.qtype == TYPE_AAAA || q.qtype == TYPE_ALL {
            CacheEntryView { a6: Some(empty_set(now)), ..e1 }
        } else {
            e1
        };
        m.insert(q.qname, e2)
    }
}

/// The entries seeded by the echoed questions, in order.
pub open spec fn seeded(qs: Seq<QuestionModel>, now: u64) -> Map<Seq<char>, CacheEntryView>
    decreases qs.len(),
{
    if qs.len() == 0 {
        Map::empty()
    } else {
        seed_question(seeded(qs.drop_last(), now), qs.last(), now)
    }
}

/// The family with a record appended, created empty at `now` if absent.
pub open spec fn push_record(f: Option<RecordSetView>, rec: AddrTtlView, now: u64) -> RecordSetView {
    let s = match f {
        Some(s) => s,
        None => empty_set(now),
    };
    RecordSetView { t: s.t, a: s.a.push(rec) }
}

/// A resolved answer is appended to its family, created empty at `now`
/// where it is missing.
pub open spec fn add_answer(m: Map<Seq<char>, CacheEntryView>, r: ResolvedModel, now: u64) -> Map<
    Seq<char>,
    CacheEntryView,
> {
    let e = entry_or_empty(m, r.dom);
    let rec = AddrTtlView { ttl: r.ttl, ip: r.ip };
    if r.v6 {
        m.insert(r.dom, CacheEntryView { a6: Some(push_record(e.a6, rec, now)), ..e })
    } else {
        m.insert(r.dom, CacheEntryView { a4: Some(push_record(e.a4, rec, now)), ..e })
    }
}

/// `m` with the resolved answers added, in order.
pub open spec fn with_answers(m: Map<Seq<char>, CacheEntryView>, rs: Seq<ResolvedModel>, now: u64) -> Map<
    Seq<char>,
    CacheEntryView,
>
    decreases rs.len(),
{
    if rs.len() == 0 {
        m
    } else {
        add_answer(with_answers(m, rs.drop_last(), now), rs.last(), now)
    }
}

/// The candidate cache entries of a reply, by domain name.
pub open spec fn candidates(p: PacketModel, rs: Seq<ResolvedModel>, now: u64) -> Map<Seq<char>, CacheEntryView> {
    with_answers(seeded(p.questions, now), rs, now)
}

/// No name occurs twice in the list.
pub open spec fn keys_unique(v: Seq<(String, CacheEntry)>) -> bool {
    forall|i: int, j: int| 0 <= i < v.len() && 0 <= j < v.len() && i != j ==> v[i].0@ != v[j].0@
}

/// Whether the list has a pair for `k`.
pub open spec fn has_key(v: Seq<(String, CacheEntry)>, k: Seq<char>) -> bool {
    exists|i: int| 0 <= i < v.len() && (#[trigger] v[i]).0@ == k
}

/// The entries of a list of (name, entry) pairs with distinct names, as a map.
pub open spec fn entries_map(v: Seq<(String, CacheEntry)>) -> Map<Seq<char>, CacheEntryView> {
    Map::new(
        |k: Seq<char>| has_key(v, k),
        |k: Seq<char>| v[choose|i: int| 0 <= i < v.len() && (#[trigger] v[i]).0@ == k].1@,
    )
}

proof fn lemma_entries_at(v: Seq<(String, CacheEntry)>, i: int)
    requires
        keys_unique(v),
        0 <= i < v.len(),
    ensures
        entries_map(v).contains_key(v[i].0@),
        entries_map(v)[v[i].0@] == v[i].1@,
{
    let k = v[i].0@;
    assert(has_key(v, k));
    let j = choose|j: int| 0 <= j < v.len() && (#[trigger] v[j]).0@ == k;
    assert(j == i);
}

proof fn lemma_entries_update(v: Seq<(String, CacheEntry)>, i: int, x: (String, CacheEntry))
    requires
        keys_unique(v),
        0 <= i < v.len(),
        x.0@ == v[i].0@,
    ensures
        keys_unique(v.update(i, x)),
        entries_map(v.update(i, x)) == entries_map(v).insert(x.0@, x.1@),
{
    let w = v.update(i, x);
    assert(keys_unique(w));
    assert forall|k: Seq<char>| has_key(w, k) == (has_key(v, k) || k == x.0@) by {
        if has_key(v, k) {
            let j = choose|j: int| 0 <= j < v.len() && (#[trigger] v[j]).0@ == k;
            assert(w[j].0@ == k);
        }
        if has_key(w, k) {
            let j = choose|j: int| 0 <= j < w.len() && (#[trigger] w[j]).0@ == k;
            assert(v[j].0@ == k);
        }
        if k == x.0@ {
            assert(w[i].0@ == k);
        }
    }
    assert forall|k: Seq<char>| #[trigger] has_key(w, k) implies entries_map(w)[k] == entries_map(v).insert(
        x.0@,
        x.1@,
    )[k] by {
        let j = choose|j: int| 0 <= j < w.len() && (#[trigger] w[j]).0@ == k;
        lemma_entries_at(w, j);
        if j != i {
            lemma_entries_at(v, j);
        }
    }
    assert(entries_map(w) =~= entries_map(v).insert(x.0@, x.1@));
}

proof fn lemma_entries_push(v: Seq<(String, CacheEntry)>, x: (String, CacheEntry))
    requires
        keys_unique(v),
        !has_key(v, x.0@),
    ensures
        keys_unique(v.push(x)),
        entries_map(v.push(x)) == entries_map(v).insert(x.0@, x.1@),
{
    let w = v.push(x);
    assert forall|i: int, j: int| 0 <= i < w.len() && 0 <= j < w.len() && i != j implies w[i].0@ != w[j].0@ by {
        if i < v.len() && j < v.len() {
            assert(w[i] == v[i] && w[j] == v[j]);
        } else if i < v.len() {
            assert(w[i] == v[i]);
        } else {
            assert(w[j] == v[j]);
        }
    }
    assert forall|k: Seq<char>| has_key(w, k) == (has_key(v, k) || k == x.0@) by {
        if has_key(v, k) {
            let j = choose|j: int| 0 <= j < v.len() && (#[trigger] v[j]).0@ == k;
            assert(w[j].0@ == k);
        }
        if has_key(w, k) {
            let j = choose|j: int| 0 <= j < w.len() && (#[trigger] w[j]).0@ == k;
            if j < v.len() {
                assert(v[j].0@ == k);
            }
        }
        if k == x.0@ {
            assert(w[v.len() as int].0@ == k);
        }
    }
    assert forall|k: Seq<char>| #[trigger] has_key(w, k) implies entries_map(w)[k] == entries_map(v).insert(
        x.0@,
        x.1@,
    )[k] by {
        let j = choose|j: int| 0 <= j < w.len() && (#[trigger] w[j]).0@ == k;
        lemma_entries_at(w, j);
        if j < v.len() {
            assert(w[j] == v[j]);
            lemma_entries_at(v, j);
        }
    }
    assert(entries_map(w) =~= entries_map(v).insert(x.0@, x.1@));
}

/// Index of the entry for `dom`, added empty if there is none.
fn entry_slot(tmp: &mut Vec<(String, CacheEntry)>, dom: &String) -> (i: usize)
    requires
        keys_unique(old(tmp)@),
    ensures
        keys_unique(final(tmp)@),
        i < final(tmp)@.len(),
        final(tmp)@[i as int].0@ == dom@,
        entries_map(final(tmp)@) == if entries_map(old(tmp)@).contains_key(dom@) {
            entries_map(old(tmp)@)
        } else {
            entries_map(old(tmp)@).insert(dom@, CacheEntryView { a4: None, a6: None })
        },
        forall|j: int| 0 <= j < old(tmp)@.len() ==> final(tmp)@[j] == old(tmp)@[j],
        final(tmp)@.len() == old(tmp)@.len() || (final(tmp)@.len() == old(tmp)@.len() + 1
            && final(tmp)@[old(tmp)@.len() as int].1 == CacheEntry { a4: None, a6: None }),
{
    let mut i: usize = 0;
    while i < tmp.len()
        invariant
            i <= tmp@.len(),
            tmp@ == old(tmp)@,
            keys_unique(tmp@),
            forall|j: int| 0 <= j < i ==> (#[trigger] tmp@[j]).0@ != dom@,
        decreases tmp.len() - i,
    {
        if tmp[i].0 == *dom {
            proof {
                lemma_entries_at(tmp@, i as int);
            }
            return i;
        }
        i = i + 1;
    }
    let x = (dom.clone(), CacheEntry { a4: None, a6: None });
    proof {
        lemma_entries_push(tmp@, x);
    }
    tmp.push(x);
    tmp.len() - 1
}

fn empty_record_set(now: u64) -> (r: CacheEntry2)
    ensures
        r@ == empty_set(now),
        r.a@.len() == 0,
{
    let r = CacheEntry2 { t: now, a: Vec::new() };
    assert(r@.a =~= seq![]);
    r
}

/// Whether every address of the A records is 4 bytes, of the AAAA records 16.
pub open spec fn entry_sized(e: CacheEntry) -> bool {
    &&& (e.a4 is Some ==> forall|j: int| 0 <= j < e.a4->Some_0.a@.len() ==> (#[trigger] e.a4->Some_0.a@[j]).ip@.len() == 4)
    &&& (e.a6 is Some ==> forall|j: int| 0 <= j < e.a6->Some_0.a@.len() ==> (#[trigger] e.a6->Some_0.a@[j]).ip@.len() == 16)
}

/// Whether every entry of the list keeps the address lengths of its families.
pub open spec fn entries_sized(v: Seq<(String, CacheEntry)>) -> bool {
    forall|i: int| 0 <= i < v.len() ==> entry_sized(#[trigger] v[i].1)
}

/// Whether every resolved address has the length of its family.
pub open spec fn addresses_sized(v: Seq<ResolvedModel>) -> bool {
    forall|i: int| 0 <= i < v.len() ==> (#[trigger] v[i]).ip.len() == if v[i].v6 { 16int } else { 4int }
}

/// Puts `e` in place of the entry at `i`, returning the entry it replaces.
fn replace_entry(tmp: &mut Vec<(String, CacheEntry)>, i: usize, e: CacheEntry) -> (old_e: CacheEntry)
    requires
        keys_unique(old(tmp)@),
        i < old(tmp)@.len(),
    ensures
        old_e == old(tmp)@[i as int].1,
        keys_unique(final(tmp)@),
        final(tmp)@.len() == old(tmp)@.len(),
        final(tmp)@[i as int].0@ == old(tmp)@[i as int].0@,
        entries_map(final(tmp)@) == entries_map(old(tmp)@).insert(old(tmp)@[i as int].0@, e@),
        final(tmp)@ == old(tmp)@.update(i as int, (old(tmp)@[i as int].0, e)),
{
    let (dom, prev) = tmp.remove(i);
    tmp.insert(i, (dom, e));
    proof {
        assert(tmp@ =~= old(tmp)@.update(i as int, tmp@[i as int]));
        lemma_entries_update(old(tmp)@, i as int, tmp@[i as int]);
    }
    prev
}

/// Builds the candidate entries of a reply: each echoed question of class
/// IN seeds empty record sets at `now` for the families it asks, then each
/// resolved answer is appended to its family. One pair per name, in order of
/// first appearance.
pub fn build_new_entries(p: &WirePacket, actual_answers: Vec<ResolvedAnswer>, now: u64) -> (r: Vec<(String, CacheEntry)>)
    requires
        addresses_sized(resolved_view(actual_answers@)),
    ensures
        keys_unique(r@),
        entries_map(r@) == candidates(p@, resolved_view(actual_answers@), now),
        entries_sized(r@),
{
    let mut tmp: Vec<(String, CacheEntry)> = Vec::new();
    let mut i: usize = 0;
    assert(entries_map(tmp@) =~= Map::empty());
    while i < p.questions.len()
        invariant
            i <= p.questions@.len(),
            keys_unique(tmp@),
            entries_map(tmp@) == seeded(p@.questions.take(i as int), now),
            entries_sized(tmp@),
        decreases p.questions.len() - i,
    {
        let q = &p.questions[i];
        proof {
            assert(p@.questions.take(i + 1).drop_last() =~= p@.questions.take(i as int));
        }
        let ghost map0 = entries_map(tmp@);
        if q.qclass == CLASS_IN {
            let ghost t0 = tmp@;
            let k = entry_slot(&mut tmp, &q.qname);
            proof {
                lemma_entries_at(tmp@, k as int);
                assert forall|i2: int| 0 <= i2 < tmp@.len() implies entry_sized(#[trigger] tmp@[i2].1) by {
                    if i2 < t0.len() {
                        assert(tmp@[i2] == t0[i2]);
                    }
                }
            }
            let ghost map1 = entries_map(tmp@);
            let ghost t1 = tmp@;
            let mut e = replace_entry(&mut tmp, k, CacheEntry { a4: None, a6: None });
            assert(e@ == entry_or_empty(map0, q.qname@));
            assert(entry_sized(e)) by {
                assert(e == t1[k as int].1);
            }
            if q.qtype == TYPE_A || q.qtype == TYPE_ALL {
                e.a4 = Some(empty_record_set(now));
            }
            if q.qtype == TYPE_AAAA || q.qtype == TYPE_ALL {
                e.a6 = Some(empty_record_set(now));
            }
            assert(entry_sized(e));
            let _ = replace_entry(&mut tmp, k, e);
            proof {
                assert forall|i2: int| 0 <= i2 < tmp@.len() implies entry_sized(#[trigger] tmp@[i2].1) by {
                    if i2 != k {
                        assert(tmp@[i2] == t1[i2]);
                    }
                }
            }
            assert(entries_map(tmp@) =~= map1.insert(q.qname@, e@));
            assert(entries_map(tmp@) =~= seed_question(map0, p@.questions[i as int], now));
        }
        i = i + 1;
    }
    assert(p@.questions.take(p@.questions.len() as int) =~= p@.questions);
    let ghost base = entries_map(tmp@);
    let ghost rs = resolved_view(actual_answers@);
    let mut j: usize = 0;
    while j < actual_answers.len()
        invariant
            j <= actual_answers@.len(),
            rs == resolved_view(actual_answers@),
            base == seeded(p@.questions, now),
            keys_unique(tmp@),
            entries_map(tmp@) == with_answers(base, rs.take(j as int), now),
            entries_sized(tmp@),
            addresses_sized(rs),
        decreases actual_answers.len() - j,
    {
        let ans = &actual_answers[j];
        proof {
            assert(rs.take(j + 1).drop_last() =~= rs.take(j as int));
        }
        let ghost map0 = entries_map(tmp@);
        let ghost t0 = tmp@;
        let k = entry_slot(&mut tmp, &ans.dom);
        proof {
            lemma_entries_at(tmp@, k as int);
            assert forall|i2: int| 0 <= i2 < tmp@.len() implies entry_sized(#[trigger] tmp@[i2].1) by {
                if i2 < t0.len() {
                    assert(tmp@[i2] == t0[i2]);
                }
            }
        }
        let ghost map1 = entries_map(tmp@);
        let ghost t1 = tmp@;
        let mut e = replace_entry(&mut tmp, k, CacheEntry { a4: None, a6: None });
        assert(e@ == entry_or_empty(map0, ans.dom@));
        assert(entry_sized(e)) by {
            assert(e == t1[k as int].1);
        }
        let rec = AddrTtl { ttl: ans.ttl, ip: slice_to_vec(ans.ip.as_slice()) };
        assert(ans@ == rs[j as int]);
        assert(rec.ip@.len() == if ans.v6 { 16int } else { 4int });
        if ans.v6 {
            let mut set = match e.a6 {
                Some(s) => s,
                None => empty_record_set(now),
            };
            let ghost before = set;
            set.a.push(rec);
            assert(set@.a =~= before@.a.push(rec@));
            e.a6 = Some(set);
        } else {
            let mut set = match e.a4 {
                Some(s) => s,
                None => empty_record_set(now),
            };
            let ghost before = set;
            set.a.push(rec);
            assert(set@.a =~= before@.a.push(rec@));
            e.a4 = Some(set);
        }
        let ghost t2 = tmp@;
        assert(entry_sized(e));
        let _ = replace_entry(&mut tmp, k, e);
        proof {
            assert forall|i2: int| 0 <= i2 < tmp@.len() implies entry_sized(#[trigger] tmp@[i2].1) by {
                if i2 != k {
                    assert(tmp@[i2] == t1[i2]);
                }
            }
        }
        assert(entries_map(tmp@) =~= map1.insert(ans.dom@, e@));
        assert(entries_map(tmp@) =~= add_answer(map0, rs[j as int], now));
        j = j + 1;
    }
    assert(rs.take(rs.len() as int) =~= rs);
    tmp
}

} // verus!
