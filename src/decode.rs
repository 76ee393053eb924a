//! Reading back a reply datagram: a decoder over bytes, and the law that it
//! recovers every field the encoder wrote.
use vstd::prelude::*;
use vstd::utf8::encode_utf8;
use crate::record::{AddrTtl, AddrTtlView, records_view};
use crate::request::{SimplifiedQuestion, SimplifiedRequest};
use crate::encode::{
    CLASS_IN, DOT, REPLY_FLAGS, TYPE_A, TYPE_AAAA, answer_count, answers_wire, first_dot, ips_sized,
    header_wire, labels_wire, qtype_code, question_wire, questions_wire, record_wire,
    records_wire, reply_wire, total_records, u16_be, u32_be,
};

verus! {

/// A resource record as read from a datagram.
pub struct RecordFields {
    pub name: Seq<u8>,
    pub rtype: u16,
    pub class: u16,
    pub ttl: u32,
    pub rdata: Seq<u8>,
}

/// The fields of a reply datagram.
pub struct ReplyFields {
    pub id: u16,
    pub flags: u16,
    pub qdcount: u16,
    pub ancount: u16,
    pub nscount: u16,
    pub arcount: u16,
    pub questions: Seq<(Seq<u8>, u16, u16)>,
    pub answers: Seq<RecordFields>,
}

/// Reads a big-endian 16-bit integer.
pub open spec fn take_u16(b: Seq<u8>) -> Option<(u16, Seq<u8>)> {
    if b.len() >= 2 {
        Some(((b[0] as int * 256 + b[1] as int) as u16, b.skip(2)))
    } else {
        None
    }
}

/// Reads a big-endian 32-bit integer.
pub open spec fn take_u32(b: Seq<u8>) -> Option<(u32, Seq<u8>)> {
    if b.len() >= 4 {
        Some(
            ((b[0] as int * 0x1000000 + b[1] as int * 0x10000 + b[2] as int * 256 + b[3] as int) as u32, b.skip(4)),
        )
    } else {
        None
    }
}

/// Reads an uncompressed name: labels of 1 to 63 bytes up to a zero byte,
/// joined by dots.
pub open spec fn take_name(b: Seq<u8>) -> Option<(Seq<u8>, Seq<u8>)>
    decreases b.len(),
{
    if b.len() == 0 {
        None
    } else if b[0] == 0 {
        Some((seq![], b.skip(1)))
    } else if b[0] > 63 || b.len() < 1 + b[0] {
        None
    } else {
        let label = b.subrange(1, 1 + b[0]);
        match take_name(b.skip(1 + b[0])) {
            None => None,
            Some((n, rest)) => Some((if n.len() == 0 { label } else { label + seq![DOT] + n }, rest)),
        }
    }
}

/// Reads `n` questions.
pub open spec fn take_questions(b: Seq<u8>, n: nat) -> Option<(Seq<(Seq<u8>, u16, u16)>, Seq<u8>)>
    decreases n,
{
    if n == 0 {
        Some((seq![], b))
    } else {
        match take_name(b) {
            None => None,
            Some((name, r1)) => match take_u16(r1) {
                None => None,
                Some((qtype, r2)) => match take_u16(r2) {
                    None => None,
                    Some((qclass, r3)) => match take_questions(r3, (n - 1) as nat) {
                        None => None,
                        Some((qs, r4)) => Some((seq![(name, qtype, qclass)] + qs, r4)),
                    },
                },
            },
        }
    }
}

/// Reads one resource record.
pub open spec fn take_record(b: Seq<u8>) -> Option<(RecordFields, Seq<u8>)> {
    match take_name(b) {
        None => None,
        Some((name, r1)) => match take_u16(r1) {
            None => None,
            Some((rtype, r2)) => match take_u16(r2) {
                None => None,
                Some((class, r3)) => match take_u32(r3) {
                    None => None,
                    Some((ttl, r4)) => match take_u16(r4) {
                        None => None,
                        Some((len, r5)) => if r5.len() < len {
                            None
                        } else {
                            Some(
                                (
                                    RecordFields { name, rtype, class, ttl, rdata: r5.take(len as int) },
                                    r5.skip(len as int),
                                ),
                            )
                        },
                    },
                },
            },
        },
    }
}

/// Reads `n` resource records.
pub open spec fn take_records(b: Seq<u8>, n: nat) -> Option<(Seq<RecordFields>, Seq<u8>)>
    decreases n,
{
    if n == 0 {
        Some((seq![], b))
    } else {
        match take_record(b) {
            None => None,
            Some((rec, r1)) => match take_records(r1, (n - 1) as nat) {
                None => None,
                Some((rs, r2)) => Some((seq![rec] + rs, r2)),
            },
        }
    }
}

/// Reads a whole reply datagram: header, questions and answer records, with
/// nothing left over.
pub open spec fn decode_reply(b: Seq<u8>) -> Option<ReplyFields> {
    match take_u16(b) {
        None => None,
        Some((id, b1)) => match take_u16(b1) {
            None => None,
            Some((flags, b2)) => match take_u16(b2) {
                None => None,
                Some((qd, b3)) => match take_u16(b3) {
                    None => None,
                    Some((an, b4)) => match take_u16(b4) {
                        None => None,
                        Some((ns, b5)) => match take_u16(b5) {
                            None => None,
                            Some((ar, b6)) => match take_questions(b6, qd as nat) {
                                None => None,
                                Some((qs, b7)) => match take_records(b7, an as nat) {
                                    None => None,
                                    Some((rs, b8)) => if b8.len() == 0 {
                                        Some(
                                            ReplyFields {
                                                id,
                                                flags,
                                                qdcount: qd,
                                                ancount: an,
                                                nscount: ns,
                                                arcount: ar,
                                                questions: qs,
                                                answers: rs,
                                            },
                                        )
                                    } else {
                                        None
                                    },
                                },
                            },
                        },
                    },
                },
            },
        },
    }
}

/// Whether a dotted name splits into labels of 1 to 63 bytes.
pub open spec fn valid_labels(d: Seq<u8>) -> bool
    decreases d.len(),
{
    let i = first_dot(d);
    1 <= i <= 63 && (i >= d.len() || valid_labels(d.skip(i + 1 as int)))
}

/// Whether a domain name can be written as DNS labels.
pub open spec fn valid_name(dom: Seq<char>) -> bool {
    valid_labels(encode_utf8(dom))
}

/// The question tuples a reply echoes for the request's questions.
pub open spec fn echoed_questions(qs: Seq<SimplifiedQuestion>) -> Seq<(Seq<u8>, u16, u16)> {
    qs.map_values(|q: SimplifiedQuestion| (encode_utf8(q.dom@), qtype_code(q.a4, q.a6), CLASS_IN))
}

/// The fields of a record written for `dom`.
pub open spec fn record_fields(dom: Seq<char>, rec: AddrTtlView, typ: u16) -> RecordFields {
    RecordFields { name: encode_utf8(dom), rtype: typ, class: CLASS_IN, ttl: rec.ttl, rdata: rec.ip }
}

/// The fields of the records written for one domain.
pub open spec fn domain_records(dom: Seq<char>, recs: Seq<AddrTtlView>, typ: u16) -> Seq<RecordFields> {
    recs.map_values(|x: AddrTtlView| record_fields(dom, x, typ))
}

/// The answer records written for a list, in order.
pub open spec fn listed_records(list: Seq<(String, Vec<AddrTtl>)>, typ: u16) -> Seq<RecordFields>
    decreases list.len(),
{
    if list.len() == 0 {
        seq![]
    } else {
        listed_records(list.drop_last(), typ) + domain_records(list.last().0@, records_view(list.last().1@), typ)
    }
}

/// The bytes of a sequence of records.
pub open spec fn records_bytes(rs: Seq<RecordFields>) -> Seq<u8>
    decreases rs.len(),
{
    if rs.len() == 0 {
        seq![]
    } else {
        records_bytes(rs.drop_last()) + name_bytes_wire(rs.last().name) + u16_be(rs.last().rtype) + u16_be(
            rs.last().class,
        ) + u32_be(rs.last().ttl) + u16_be(rs.last().rdata.len() as u16) + rs.last().rdata
    }
}

/// A dotted name of bytes as labels and a zero byte.
pub open spec fn name_bytes_wire(d: Seq<u8>) -> Seq<u8> {
    labels_wire(d) + seq![0u8]
}

proof fn lemma_take_u16(x: u16, rest: Seq<u8>)
    ensures
        take_u16(u16_be(x) + rest) == Some((x, rest)),
{
    let b = u16_be(x) + rest;
    assert(b[0] == (x / 256) as u8 && b[1] == (x % 256) as u8);
    assert(((x / 256) as u8) as int * 256 + ((x % 256) as u8) as int == x) by (nonlinear_arith);
    assert(b.skip(2) =~= rest);
}

proof fn lemma_take_u32(x: u32, rest: Seq<u8>)
    ensures
        take_u32(u32_be(x) + rest) == Some((x, rest)),
{
    let b = u32_be(x) + rest;
    assert(b[0] == (x / 0x1000000) as u8);
    assert(b[1] == ((x / 0x10000) % 256) as u8);
    assert(b[2] == ((x / 256) % 256) as u8);
    assert(b[3] == (x % 256) as u8);
    assert(((x / 0x1000000) as u8) as int * 0x1000000 + (((x / 0x10000) % 256) as u8) as int * 0x10000 + (((x / 256)
        % 256) as u8) as int * 256 + ((x % 256) as u8) as int == x) by (nonlinear_arith);
    assert(b.skip(4) =~= rest);
}


proof fn lemma_first_dot_props(d: Seq<u8>)
    ensures
        first_dot(d) <= d.len(),
        first_dot(d) < d.len() ==> d[first_dot(d) as int] == DOT,
        forall|j: int| 0 <= j < first_dot(d) ==> d[j] != DOT,
    decreases d.len(),
{
    if d.len() > 0 && d[0] != DOT {
        lemma_first_dot_props(d.drop_first());
        assert forall|j: int| 0 <= j < first_dot(d) implies d[j] != DOT by {
            if j > 0 {
                assert(d[j] == d.drop_first()[j - 1]);
            }
        }
    }
}

proof fn lemma_take_name(d: Seq<u8>, rest: Seq<u8>)
    requires
        valid_labels(d),
    ensures
        take_name(name_bytes_wire(d) + rest) == Some((d, rest)),
    decreases d.len(),
{
    lemma_first_dot_props(d);
    let i = first_dot(d);
    let b = name_bytes_wire(d) + rest;
    let z = seq![0u8] + rest;
    assert(z[0] == 0);
    assert(z.skip(1) =~= rest);
    assert(take_name(z) == Some((Seq::<u8>::empty(), rest)));
    if i >= d.len() {
        assert(labels_wire(d) == seq![(i % 256) as u8] + d);
        assert(b =~= seq![i as u8] + d + z);
        assert(b[0] == i as u8);
        assert(b.subrange(1, 1 + i as int) =~= d);
        assert(b.skip(1 + i as int) =~= z);
        assert(take_name(b) == Some((d, rest)));
    } else {
        let d2 = d.skip(i + 1 as int);
        lemma_take_name(d2, rest);
        lemma_first_dot_props(d2);
        assert(b =~= seq![i as u8] + d.take(i as int) + (name_bytes_wire(d2) + rest));
        assert(b[0] == i as u8);
        assert(b.subrange(1, 1 + i as int) =~= d.take(i as int));
        assert(b.skip(1 + i as int) =~= name_bytes_wire(d2) + rest);
        assert(d2.len() > 0);
        assert(d.take(i as int) + seq![DOT] + d2 =~= d);
        assert(take_name(b) == Some((d, rest)));
    }
}

proof fn lemma_questions_front(qs: Seq<SimplifiedQuestion>)
    requires
        qs.len() > 0,
    ensures
        questions_wire(qs) == question_wire(qs[0]) + questions_wire(qs.skip(1)),
    decreases qs.len(),
{
    if qs.len() == 1 {
        assert(qs.drop_last() =~= seq![]);
        assert(qs.skip(1) =~= seq![]);
        assert(questions_wire(qs) =~= question_wire(qs[0]) + questions_wire(qs.skip(1)));
    } else {
        lemma_questions_front(qs.drop_last());
        assert(qs.drop_last().skip(1) =~= qs.skip(1).drop_last());
        assert(qs.skip(1).last() == qs.last());
        assert(questions_wire(qs) =~= question_wire(qs[0]) + questions_wire(qs.skip(1)));
    }
}

proof fn lemma_take_questions(qs: Seq<SimplifiedQuestion>, rest: Seq<u8>)
    requires
        forall|i: int| 0 <= i < qs.len() ==> valid_name((#[trigger] qs[i]).dom@),
    ensures
        take_questions(questions_wire(qs) + rest, qs.len()) == Some((echoed_questions(qs), rest)),
    decreases qs.len(),
{
    if qs.len() == 0 {
        assert(questions_wire(qs) + rest =~= rest);
        assert(echoed_questions(qs) =~= seq![]);
    } else {
        let q = qs[0];
        let tail = qs.skip(1);
        lemma_questions_front(qs);
        assert(valid_name(q.dom@));
        assert forall|i: int| 0 <= i < tail.len() implies valid_name((#[trigger] tail[i]).dom@) by {
            assert(tail[i] == qs[i + 1]);
        }
        lemma_take_questions(tail, rest);
        let t1 = u16_be(qtype_code(q.a4, q.a6)) + u16_be(CLASS_IN) + questions_wire(tail) + rest;
        let t2 = u16_be(CLASS_IN) + questions_wire(tail) + rest;
        let t3 = questions_wire(tail) + rest;
        assert(questions_wire(qs) + rest =~= name_bytes_wire(encode_utf8(q.dom@)) + t1);
        lemma_take_name(encode_utf8(q.dom@), t1);
        assert(t1 =~= u16_be(qtype_code(q.a4, q.a6)) + t2);
        lemma_take_u16(qtype_code(q.a4, q.a6), t2);
        assert(t2 =~= u16_be(CLASS_IN) + t3);
        lemma_take_u16(CLASS_IN, t3);
        assert(echoed_questions(qs) =~= seq![(encode_utf8(q.dom@), qtype_code(q.a4, q.a6), CLASS_IN)]
            + echoed_questions(tail));
    }
}

/// The bytes of one record.
pub open spec fn record_bytes(r: RecordFields) -> Seq<u8> {
    name_bytes_wire(r.name) + u16_be(r.rtype) + u16_be(r.class) + u32_be(r.ttl) + u16_be(r.rdata.len() as u16)
        + r.rdata
}

proof fn lemma_records_bytes_concat(x: Seq<RecordFields>, y: Seq<RecordFields>)
    ensures
        records_bytes(x + y) == records_bytes(x) + records_bytes(y),
    decreases y.len(),
{
    if y.len() == 0 {
        assert(x + y =~= x);
        assert(records_bytes(x) + records_bytes(y) =~= records_bytes(x));
    } else {
        lemma_records_bytes_concat(x, y.drop_last());
        assert((x + y).drop_last() =~= x + y.drop_last());
        assert((x + y).last() == y.last());
        assert(records_bytes(x + y) =~= records_bytes(x) + records_bytes(y));
    }
}

proof fn lemma_records_wire(dom: Seq<char>, recs: Seq<AddrTtlView>, typ: u16)
    ensures
        records_wire(dom, recs, typ) == records_bytes(domain_records(dom, recs, typ)),
    decreases recs.len(),
{
    if recs.len() > 0 {
        lemma_records_wire(dom, recs.drop_last(), typ);
        assert(domain_records(dom, recs, typ).drop_last() =~= domain_records(dom, recs.drop_last(), typ));
        assert(record_wire(dom, recs.last(), typ) =~= record_bytes(record_fields(dom, recs.last(), typ)));
    } else {
        assert(domain_records(dom, recs, typ) =~= seq![]);
    }
}

proof fn lemma_answers_wire(list: Seq<(String, Vec<AddrTtl>)>, typ: u16)
    ensures
        answers_wire(list, typ) == records_bytes(listed_records(list, typ)),
        listed_records(list, typ).len() == total_records(list),
    decreases list.len(),
{
    if list.len() > 0 {
        lemma_answers_wire(list.drop_last(), typ);
        let l = list.last();
        lemma_records_wire(l.0@, records_view(l.1@), typ);
        lemma_records_bytes_concat(
            listed_records(list.drop_last(), typ),
            domain_records(l.0@, records_view(l.1@), typ),
        );
    }
}

#[verifier::rlimit(50)]
proof fn lemma_take_records(rs: Seq<RecordFields>, rest: Seq<u8>)
    requires
        forall|i: int| 0 <= i < rs.len() ==> valid_labels((#[trigger] rs[i]).name) && rs[i].rdata.len() <= 0xFFFF,
    ensures
        take_records(records_bytes(rs) + rest, rs.len()) == Some((rs, rest)),
    decreases rs.len(),
{
    if rs.len() == 0 {
        assert(records_bytes(rs) + rest =~= rest);
        assert(rs =~= seq![]);
    } else {
        let r = rs[0];
        let tail = rs.skip(1);
        assert(rs =~= seq![r] + tail);
        lemma_records_bytes_concat(seq![r], tail);
        assert(seq![r].drop_last() =~= Seq::<RecordFields>::empty());
        assert(records_bytes(seq![r].drop_last()) == Seq::<u8>::empty());
        assert(records_bytes(seq![r]) =~= record_bytes(r));
        assert forall|i: int| 0 <= i < tail.len() implies valid_labels((#[trigger] tail[i]).name) && tail[i].rdata.len()
            <= 0xFFFF by {
            assert(tail[i] == rs[i + 1]);
        }
        assert(valid_labels(r.name) && r.rdata.len() <= 0xFFFF);
        lemma_take_records(tail, rest);
        let t3 = records_bytes(tail) + rest;
        let t2 = r.rdata + t3;
        let t1 = u16_be(r.rdata.len() as u16) + t2;
        let t0 = u32_be(r.ttl) + t1;
        let tc = u16_be(r.class) + t0;
        let tt = u16_be(r.rtype) + tc;
        assert(records_bytes(rs) + rest =~= name_bytes_wire(r.name) + tt);
        lemma_take_name(r.name, tt);
        lemma_take_u16(r.rtype, tc);
        lemma_take_u16(r.class, t0);
        lemma_take_u32(r.ttl, t1);
        lemma_take_u16(r.rdata.len() as u16, t2);
        assert(t2.take(r.rdata.len() as int) =~= r.rdata);
        assert(t2.skip(r.rdata.len() as int) =~= t3);
    }
}

proof fn lemma_listed_props(list: Seq<(String, Vec<AddrTtl>)>, typ: u16, n: nat)
    requires
        n <= 16,
        ips_sized(list, n),
        forall|i: int| 0 <= i < list.len() ==> valid_name((#[trigger] list[i]).0@),
    ensures
        forall|k: int|
            0 <= k < listed_records(list, typ).len() ==> valid_labels(
                (#[trigger] listed_records(list, typ)[k]).name,
            ) && listed_records(list, typ)[k].rdata.len() == n,
    decreases list.len(),
{
    if list.len() > 0 {
        let pre = list.drop_last();
        assert forall|i: int, j: int|
            0 <= i < pre.len() && 0 <= j < pre[i].1@.len() implies (#[trigger] pre[i].1@[j]).ip@.len() == n by {
            assert(pre[i] == list[i]);
        }
        assert forall|i: int| 0 <= i < pre.len() implies valid_name((#[trigger] pre[i]).0@) by {
            assert(pre[i] == list[i]);
        }
        lemma_listed_props(pre, typ, n);
        let l = list.last();
        let head = listed_records(pre, typ);
        let last = domain_records(l.0@, records_view(l.1@), typ);
        assert(valid_name(list[list.len() - 1].0@));
        assert forall|k: int| 0 <= k < listed_records(list, typ).len() implies valid_labels(
            (#[trigger] listed_records(list, typ)[k]).name,
        ) && listed_records(list, typ)[k].rdata.len() == n by {
            if k < head.len() {
                assert(listed_records(list, typ)[k] == head[k]);
            } else {
                let j = k - head.len();
                assert(listed_records(list, typ)[k] == last[j]);
                assert(l.1@[j].ip@.len() == n);
            }
        }
    }
}

/// A generated reply reads back whole: decoding the bytes that the encoder
/// writes recovers the request's id, the flag word 0x8180, the question and
/// answer counts, the echoed question tuples and the answer records in
/// order. This holds for replies whose names are valid DNS names (labels of
/// 1 to 63 bytes) and whose counts fit in 16 bits.
#[verifier::rlimit(50)]
pub proof fn lemma_reply_round_trip(
    r: SimplifiedRequest,
    a: Seq<(String, Vec<AddrTtl>)>,
    aaaa: Seq<(String, Vec<AddrTtl>)>,
)
    requires
        ips_sized(a, 4),
        ips_sized(aaaa, 16),
        r.q@.len() <= 0xFFFF,
        total_records(a) + total_records(aaaa) <= 0xFFFF,
        forall|i: int| 0 <= i < r.q@.len() ==> valid_name((#[trigger] r.q@[i]).dom@),
        forall|i: int| 0 <= i < a.len() ==> valid_name((#[trigger] a[i]).0@),
        forall|i: int| 0 <= i < aaaa.len() ==> valid_name((#[trigger] aaaa[i]).0@),
    ensures
        decode_reply(reply_wire(r, a, aaaa)) == Some(
            ReplyFields {
                id: r.id,
                flags: REPLY_FLAGS,
                qdcount: r.q@.len() as u16,
                ancount: (total_records(a) + total_records(aaaa)) as u16,
                nscount: 0,
                arcount: 0,
                questions: echoed_questions(r.q@),
                answers: listed_records(a, TYPE_A) + listed_records(aaaa, TYPE_AAAA),
            },
        ),
{
    let qd = r.q@.len() as u16;
    let an = answer_count(a, aaaa);
    let la = listed_records(a, TYPE_A);
    let l6 = listed_records(aaaa, TYPE_AAAA);
    lemma_answers_wire(a, TYPE_A);
    lemma_answers_wire(aaaa, TYPE_AAAA);
    lemma_records_bytes_concat(la, l6);
    let rs = la + l6;
    lemma_listed_props(a, TYPE_A, 4);
    lemma_listed_props(aaaa, TYPE_AAAA, 16);
    assert forall|i: int| 0 <= i < rs.len() implies valid_labels((#[trigger] rs[i]).name) && rs[i].rdata.len()
        <= 0xFFFF by {
        if i < la.len() {
            assert(rs[i] == la[i]);
        } else {
            assert(rs[i] == l6[i - la.len()]);
        }
    }
    let body = records_bytes(rs);
    assert(answers_wire(a, TYPE_A) + answers_wire(aaaa, TYPE_AAAA) == body);
    lemma_take_records(rs, seq![]);
    assert(body + seq![] =~= body);
    lemma_take_questions(r.q@, body);
    let tail = questions_wire(r.q@) + body;
    assert(reply_wire(r, a, aaaa) =~= header_wire(r.id, qd, an) + tail);
    assert(an as nat == rs.len());
    assert(qd as nat == r.q@.len());
    lemma_decode_header(r.id, qd, an, tail);
}

proof fn lemma_decode_header(id: u16, qd: u16, an: u16, tail: Seq<u8>)
    ensures
        decode_reply(header_wire(id, qd, an) + tail) == match take_questions(tail, qd as nat) {
            None => None,
            Some((qs, b7)) => match take_records(b7, an as nat) {
                None => None,
                Some((rs, b8)) => if b8.len() == 0 {
                    Some(
                        ReplyFields {
                            id,
                            flags: REPLY_FLAGS,
                            qdcount: qd,
                            ancount: an,
                            nscount: 0,
                            arcount: 0,
                            questions: qs,
                            answers: rs,
                        },
                    )
                } else {
                    None
                },
            },
        },
{
    let h5 = u16_be(0) + tail;
    let h4 = u16_be(0) + h5;
    let h3 = u16_be(an) + h4;
    let h2 = u16_be(qd) + h3;
    let h1 = u16_be(REPLY_FLAGS) + h2;
    assert(header_wire(id, qd, an) + tail =~= u16_be(id) + h1);
    lemma_take_u16(id, h1);
    lemma_take_u16(REPLY_FLAGS, h2);
    lemma_take_u16(qd, h3);
    lemma_take_u16(an, h4);
    lemma_take_u16(0, h5);
    lemma_take_u16(0, tail);
}

} // verus!
