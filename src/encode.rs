//! Encoding of DNS reply datagrams.
use vstd::prelude::*;
use vstd::utf8::encode_utf8;
use crate::record::{AddrTtl, AddrTtlView, records_view};
use crate::request::{SimplifiedQuestion, SimplifiedRequest};

verus! {

/// Why a reply could not be encoded.
#[derive(Debug, Clone, Copy, PartialEq, Eq, Structural)]
pub enum ReplyError {
    /// An A record whose address is not 4 bytes long.
    BadIpv4Length,
    /// An AAAA record whose address is not 16 bytes long.
    BadIpv6Length,
}

/// Answers for one address family: each domain with its records.
pub type AnswerList = Vec<(String, Vec<AddrTtl>)>;

pub const TYPE_A: u16 = 0x0001;
pub const TYPE_AAAA: u16 = 0x001C;
pub const TYPE_ALL: u16 = 0x00FF;
pub const CLASS_IN: u16 = 0x0001;
pub const REPLY_FLAGS: u16 = 0x8180;
pub const DOT: u8 = 0x2E;

/// A 16-bit integer, big-endian.
pub open spec fn u16_be(x: u16) -> Seq<u8> {
    seq![(x / 256) as u8, (x % 256) as u8]
}

/// A 32-bit integer, big-endian.
pub open spec fn u32_be(x: u32) -> Seq<u8> {
    seq![(x / 0x1000000) as u8, ((x / 0x10000) % 256) as u8, ((x / 256) % 256) as u8, (x % 256) as u8]
}

/// Index of the first `.` in `b`, or its length if there is none.
pub open spec fn first_dot(b: Seq<u8>) -> nat
    decreases b.len(),
{
    if b.len() == 0 {
        0
    } else if b[0] == DOT {
        0
    } else {
        1 + first_dot(b.drop_first())
    }
}

/// The labels of a dotted name, each prefixed by its length (modulo 256).
pub open spec fn labels_wire(b: Seq<u8>) -> Seq<u8>
    decreases b.len(),
{
    let i = first_dot(b);
    if i >= b.len() {
        seq![(i % 256) as u8] + b
    } else {
        seq![(i % 256) as u8] + b.take(i as int) + labels_wire(b.skip(i + 1 as int))
    }
}

/// A domain name as it stands in a packet, without compression.
pub open spec fn name_wire(dom: Seq<char>) -> Seq<u8> {
    labels_wire(encode_utf8(dom)) + seq![0u8]
}

/// The QTYPE echoed for a question.
pub open spec fn qtype_code(a4: bool, a6: bool) -> u16 {
    if a4 && a6 {
        TYPE_ALL
    } else if a4 {
        TYPE_A
    } else if a6 {
        TYPE_AAAA
    } else {
        0
    }
}

/// A question: name, QTYPE, class IN.
pub open spec fn question_wire(q: SimplifiedQuestion) -> Seq<u8> {
    name_wire(q.dom@) + u16_be(qtype_code(q.a4, q.a6)) + u16_be(CLASS_IN)
}

/// The question section.
pub open spec fn questions_wire(qs: Seq<SimplifiedQuestion>) -> Seq<u8>
    decreases qs.len(),
{
    if qs.len() == 0 {
        seq![]
    } else {
        questions_wire(qs.drop_last()) + question_wire(qs.last())
    }
}

/// One answer record: name, TYPE, class IN, TTL, RDLENGTH, RDATA.
pub open spec fn record_wire(dom: Seq<char>, rec: AddrTtlView, typ: u16) -> Seq<u8> {
    name_wire(dom) + u16_be(typ) + u16_be(CLASS_IN) + u32_be(rec.ttl) + u16_be(
        rec.ip.len() as u16,
    ) + rec.ip
}

/// The records of one domain, in order.
pub open spec fn records_wire(dom: Seq<char>, recs: Seq<AddrTtlView>, typ: u16) -> Seq<u8>
    decreases recs.len(),
{
    if recs.len() == 0 {
        seq![]
    } else {
        records_wire(dom, recs.drop_last(), typ) + record_wire(dom, recs.last(), typ)
    }
}

/// The records of an answer list, domain by domain.
pub open spec fn answers_wire(list: Seq<(String, Vec<AddrTtl>)>, typ: u16) -> Seq<u8>
    decreases list.len(),
{
    if list.len() == 0 {
        seq![]
    } else {
        answers_wire(list.drop_last(), typ) + records_wire(
            list.last().0@,
            records_view(list.last().1@),
            typ,
        )
    }
}

/// Number of records in an answer list.
pub open spec fn total_records(list: Seq<(String, Vec<AddrTtl>)>) -> nat
    decreases list.len(),
{
    if list.len() == 0 {
        0
    } else {
        total_records(list.drop_last()) + list.last().1@.len()
    }
}

/// Whether every address in the list is `n` bytes long.
pub open spec fn ips_sized(list: Seq<(String, Vec<AddrTtl>)>, n: nat) -> bool {
    forall|i: int, j: int|
        0 <= i < list.len() && 0 <= j < list[i].1@.len() ==> (#[trigger] list[i].1@[j]).ip@.len()
            == n
}

/// ANCOUNT: the number of records, at most 0xFFFF.
pub open spec fn answer_count(a: Seq<(String, Vec<AddrTtl>)>, aaaa: Seq<(String, Vec<AddrTtl>)>) -> u16 {
    let n = total_records(a) + total_records(aaaa);
    if n > 0xFFFF {
        0xFFFF
    } else {
        n as u16
    }
}

/// The 12-byte header: id, flags, QDCOUNT, ANCOUNT, NSCOUNT and ARCOUNT zero.
pub open spec fn header_wire(id: u16, qdcount: u16, ancount: u16) -> Seq<u8> {
    u16_be(id) + u16_be(REPLY_FLAGS) + u16_be(qdcount) + u16_be(ancount) + u16_be(0) + u16_be(0)
}

/// The reply datagram for a request and its answers.
pub open spec fn reply_wire(
    r: SimplifiedRequest,
    a: Seq<(String, Vec<AddrTtl>)>,
    aaaa: Seq<(String, Vec<AddrTtl>)>,
) -> Seq<u8> {
    header_wire(r.id, r.q@.len() as u16, answer_count(a, aaaa)) + questions_wire(r.q@)
        + answers_wire(a, TYPE_A) + answers_wire(aaaa, TYPE_AAAA)
}

fn put_u16(out: &mut Vec<u8>, x: u16)
    ensures
        final(out)@ == old(out)@ + u16_be(x),
{
    out.push((x / 256) as u8);
    out.push((x % 256) as u8);
    assert(final(out)@ =~= old(out)@ + u16_be(x));
}

fn put_u32(out: &mut Vec<u8>, x: u32)
    ensures
        final(out)@ == old(out)@ + u32_be(x),
{
    out.push((x / 0x1000000) as u8);
    out.push(((x / 0x10000) % 256) as u8);
    out.push(((x / 256) % 256) as u8);
    out.push((x % 256) as u8);
    assert(final(out)@ =~= old(out)@ + u32_be(x));
}

fn put_bytes(out: &mut Vec<u8>, b: &[u8], start: usize, end: usize)
    requires
        start <= end <= b@.len(),
    ensures
        final(out)@ == old(out)@ + b@.subrange(start as int, end as int),
{
    let mut k = start;
    while k < end
        invariant
            start <= k <= end,
            end <= b@.len(),
            out@ == old(out)@ + b@.subrange(start as int, k as int),
        decreases end - k,
    {
        out.push(b[k]);
        assert(b@.subrange(start as int, k + 1) =~= b@.subrange(start as int, k as int).push(b@[k as int]));
        k = k + 1;
    }
}

proof fn lemma_first_dot(b: Seq<u8>, k: nat)
    requires
        k <= b.len(),
        forall|m: int| 0 <= m < k ==> b[m] != DOT,
        k == b.len() || b[k as int] == DOT,
    ensures
        first_dot(b) == k,
    decreases k,
{
    if k > 0 {
        lemma_first_dot(b.drop_first(), (k - 1) as nat);
    }
}

/// Appends a domain name as length-prefixed labels and a zero byte.
fn put_name(out: &mut Vec<u8>, dom: &str)
    ensures
        final(out)@ == old(out)@ + name_wire(dom@),
{
    let b = dom.as_bytes();
    let ghost bs = b@;
    assert(bs == encode_utf8(dom@));
    let mut start: usize = 0;
    let mut done = false;
    assert(bs.skip(0) =~= bs);
    while !done
        invariant
            b@ == bs,
            start <= bs.len(),
            !done ==> out@ + labels_wire(bs.skip(start as int)) == old(out)@ + labels_wire(bs),
            done ==> out@ == old(out)@ + labels_wire(bs),
        decreases (if done { 0int } else { 1int }) + bs.len() - start,
    {
        let mut j = start;
        while j < b.len() && b[j] != DOT
            invariant
                b@ == bs,
                start <= j <= bs.len(),
                forall|m: int| start <= m < j ==> bs[m] != DOT,
            decreases bs.len() - j,
        {
            j = j + 1;
        }
        let ghost rest = bs.skip(start as int);
        proof {
            lemma_first_dot(rest, (j - start) as nat);
        }
        let ghost before = out@;
        out.push(((j - start) % 256) as u8);
        put_bytes(out, b, start, j);
        proof {
            assert(rest.take((j - start) as int) =~= bs.subrange(start as int, j as int));
        }
        if j == b.len() {
            proof {
                assert(rest =~= bs.subrange(start as int, j as int));
                assert(out@ =~= before + labels_wire(rest));
            }
            done = true;
        } else {
            proof {
                assert(rest.skip((j - start) + 1) =~= bs.skip(j + 1));
                assert(before + labels_wire(rest) =~= out@ + labels_wire(bs.skip(j + 1)));
            }
            start = j + 1;
        }
    }
    out.push(0);
    assert(final(out)@ =~= old(out)@ + name_wire(dom@));
}


/// Whether every address in the list is `n` bytes long.
fn check_ip_lengths(list: &AnswerList, n: usize) -> (r: bool)
    ensures
        r == ips_sized(list@, n as nat),
{
    let mut i: usize = 0;
    while i < list.len()
        invariant
            i <= list@.len(),
            forall|i2: int, j: int|
                0 <= i2 < i && 0 <= j < list@[i2].1@.len() ==> (#[trigger] list@[i2].1@[j]).ip@.len()
                    == n,
        decreases list.len() - i,
    {
        let recs = &list[i].1;
        let mut j: usize = 0;
        while j < recs.len()
            invariant
                i < list@.len(),
                recs == list@[i as int].1,
                j <= recs@.len(),
                forall|i2: int, j2: int|
                    0 <= i2 < i && 0 <= j2 < list@[i2].1@.len() ==> (#[trigger] list@[i2].1@[j2]).ip@.len()
                        == n,
                forall|j2: int| 0 <= j2 < j ==> (#[trigger] recs@[j2]).ip@.len() == n,
            decreases recs.len() - j,
        {
            if recs[j].ip.len() != n {
                return false;
            }
            j = j + 1;
        }
        i = i + 1;
    }
    true
}

/// Number of records in the list, at most `0xFFFF`.
fn count_records(list: &AnswerList, start: usize) -> (r: usize)
    requires
        start <= 0xFFFF,
    ensures
        r == if start + total_records(list@) > 0xFFFF { 0xFFFF } else { start + total_records(list@) },
{
    let mut n = start;
    let mut i: usize = 0;
    while i < list.len()
        invariant
            i <= list@.len(),
            n == if start + total_records(list@.take(i as int)) > 0xFFFF {
                0xFFFF
            } else {
                start + total_records(list@.take(i as int))
            },
        decreases list.len() - i,
    {
        let len = list[i].1.len();
        assert(list@.take(i + 1).drop_last() =~= list@.take(i as int));
        if len >= 0xFFFF - n {
            n = 0xFFFF;
        } else {
            n = n + len;
        }
        i = i + 1;
    }
    assert(list@.take(list@.len() as int) =~= list@);
    n
}

fn put_questions(out: &mut Vec<u8>, qs: &Vec<SimplifiedQuestion>)
    ensures
        final(out)@ == old(out)@ + questions_wire(qs@),
{
    let mut i: usize = 0;
    while i < qs.len()
        invariant
            i <= qs@.len(),
            out@ == old(out)@ + questions_wire(qs@.take(i as int)),
        decreases qs.len() - i,
    {
        let q = &qs[i];
        let ghost before = out@;
        put_name(out, q.dom.as_str());
        let qtype: u16 = if q.a4 && q.a6 {
            TYPE_ALL
        } else if q.a4 {
            TYPE_A
        } else if q.a6 {
            TYPE_AAAA
        } else {
            0
        };
        put_u16(out, qtype);
        put_u16(out, CLASS_IN);
        proof {
            assert(qs@.take(i + 1).drop_last() =~= qs@.take(i as int));
            assert(out@ =~= before + question_wire(qs@[i as int]));
        }
        i = i + 1;
    }
    assert(qs@.take(qs@.len() as int) =~= qs@);
}

fn put_answers(out: &mut Vec<u8>, list: &AnswerList, typ: u16)
    ensures
        final(out)@ == old(out)@ + answers_wire(list@, typ),
{
    let mut i: usize = 0;
    while i < list.len()
        invariant
            i <= list@.len(),
            out@ == old(out)@ + answers_wire(list@.take(i as int), typ),
        decreases list.len() - i,
    {
        let dom = &list[i].0;
        let recs = &list[i].1;
        let ghost base = out@;
        let ghost rv = records_view(recs@);
        let mut j: usize = 0;
        while j < recs.len()
            invariant
                i < list@.len(),
                recs == list@[i as int].1,
                dom == list@[i as int].0,
                rv == records_view(recs@),
                j <= recs@.len(),
                out@ == base + records_wire(dom@, rv.take(j as int), typ),
            decreases recs.len() - j,
        {
            let rec = &recs[j];
            let ghost before = out@;
            put_name(out, dom.as_str());
            put_u16(out, typ);
            put_u16(out, CLASS_IN);
            put_u32(out, rec.ttl);
            put_u16(out, rec.ip.len() as u16);
            put_bytes(out, rec.ip.as_slice(), 0, rec.ip.len());
            proof {
                assert(rec.ip@.subrange(0, rec.ip@.len() as int) =~= rec.ip@);
                assert(rv.take(j + 1).drop_last() =~= rv.take(j as int));
                assert(out@ =~= before + record_wire(dom@, rv[j as int], typ));
            }
            j = j + 1;
        }
        proof {
            assert(rv.take(recs@.len() as int) =~= rv);
            assert(list@.take(i + 1).drop_last() =~= list@.take(i as int));
        }
        i = i + 1;
    }
    assert(list@.take(list@.len() as int) =~= list@);
}

/// Encodes the reply datagram for a request: header with the request's id,
/// flags 0x8180 and the counts, the questions echoed, then the A and the
/// AAAA records, names uncompressed, integers big-endian. Fails if an
/// address has the wrong length for its family.
pub fn encode_reply(r: &SimplifiedRequest, ans_a: &AnswerList, ans_aaaa: &AnswerList) -> (res: Result<
    Vec<u8>,
    ReplyError,
>)
    ensures
        !ips_sized(ans_a@, 4) ==> res == Err::<Vec<u8>, ReplyError>(ReplyError::BadIpv4Length),
        ips_sized(ans_a@, 4) && !ips_sized(ans_aaaa@, 16) ==> res == Err::<Vec<u8>, ReplyError>(
            ReplyError::BadIpv6Length,
        ),
        ips_sized(ans_a@, 4) && ips_sized(ans_aaaa@, 16) ==> res is Ok && res->Ok_0@ == reply_wire(
            *r,
            ans_a@,
            ans_aaaa@,
        ),
{
    if !check_ip_lengths(ans_a, 4) {
        return Err(ReplyError::BadIpv4Length);
    }
    if !check_ip_lengths(ans_aaaa, 16) {
        return Err(ReplyError::BadIpv6Length);
    }
    let n4 = count_records(ans_a, 0);
    let num_answers = count_records(ans_aaaa, n4);
    let mut out: Vec<u8> = Vec::with_capacity(600);
    put_u16(&mut out, r.id);
    put_u16(&mut out, REPLY_FLAGS);
    put_u16(&mut out, r.q.len() as u16);
    put_u16(&mut out, num_answers as u16);
    put_u16(&mut out, 0);
    put_u16(&mut out, 0);
    put_questions(&mut out, &r.q);
    put_answers(&mut out, ans_a, TYPE_A);
    put_answers(&mut out, ans_aaaa, TYPE_AAAA);
    assert(out@ =~= reply_wire(*r, ans_a@, ans_aaaa@));
    Ok(out)
}

} // verus!
