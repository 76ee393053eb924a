//! Client requests in the reduced form that the engine keeps.
use vstd::prelude::*;
use crate::encode::{CLASS_IN, TYPE_A, TYPE_AAAA};
use crate::wire::{QuestionModel, WirePacket};

verus! {

/// The address of a client, as plain values: the IP octets (an IPv4
/// address in the first four), the port, and the IPv6 flow and scope.
#[derive(Debug, Clone, Copy, PartialEq, Eq, Hash)]
pub struct ClientAddr {
    /// Address octets.
    pub ip: [u8; 16],
    /// Whether `ip` is an IPv6 address.
    pub is_v6: bool,
    /// UDP port.
    pub port: u16,
    /// IPv6 flow information.
    pub flowinfo: u32,
    /// IPv6 scope id.
    pub scope_id: u32,
}

/// One question of a client request: a lowercased domain name and the
/// address families asked for.
#[derive(Debug)]
pub struct SimplifiedQuestion {
    /// Lowercased domain name.
    pub dom: String,
    /// A records wanted.
    pub a4: bool,
    /// AAAA records wanted.
    pub a6: bool,
}

/// A client request awaiting an answer.
#[derive(Debug)]
pub struct SimplifiedRequest {
    /// DNS transaction id of the client's query.
    pub id: u16,
    /// Who asked.
    pub clientid: ClientAddr,
    /// The questions.
    pub q: Vec<SimplifiedQuestion>,
    /// A background refresh: when answered from cache, send nothing.
    pub inhibit_send: bool,
}


/// QCLASS ANY.
pub const CLASS_ANY: u16 = 0x00FF;

/// A question the cache handles: class IN or ANY, type A or AAAA. (Type ALL
/// is left to the upstream: its answers often lack one family.)
pub open spec fn is_normal(q: QuestionModel) -> bool {
    (q.qclass == CLASS_IN || q.qclass == CLASS_ANY) && (q.qtype == TYPE_A || q.qtype == TYPE_AAAA)
}

/// The simplified form of a question.
pub open spec fn simplifies_to(s: SimplifiedQuestion, q: QuestionModel) -> bool {
    s.dom@ == q.qname && s.a4 == (q.qtype == TYPE_A) && s.a6 == (q.qtype == TYPE_AAAA)
}

/// Reduces the questions of a client query to the simplified form; `None`
/// if any question is not one the cache handles, so that the query is to be
/// passed through.
pub fn simplify_questions(p: &WirePacket) -> (r: Option<Vec<SimplifiedQuestion>>)
    ensures
        r is Some <==> forall|i: int| 0 <= i < p@.questions.len() ==> is_normal(#[trigger] p@.questions[i]),
        r is Some ==> r->Some_0@.len() == p@.questions.len() && forall|i: int|
            0 <= i < p@.questions.len() ==> simplifies_to(#[trigger] r->Some_0@[i], p@.questions[i]),
{
    let mut out: Vec<SimplifiedQuestion> = Vec::with_capacity(1);
    let mut weird = false;
    let mut i: usize = 0;
    while i < p.questions.len()
        invariant
            i <= p@.questions.len(),
            out@.len() == i,
            !weird <==> forall|j: int| 0 <= j < i ==> is_normal(#[trigger] p@.questions[j]),
            forall|j: int| 0 <= j < i ==> simplifies_to(#[trigger] out@[j], p@.questions[j]),
        decreases p.questions.len() - i,
    {
        let q = &p.questions[i];
        if !((q.qclass == CLASS_IN || q.qclass == CLASS_ANY) && (q.qtype == TYPE_A || q.qtype == TYPE_AAAA)) {
            weird = true;
        }
        out.push(SimplifiedQuestion { dom: q.qname.clone(), a4: q.qtype == TYPE_A, a6: q.qtype == TYPE_AAAA });
        proof {
            assert(q@ == p@.questions[i as int]);
            if !weird {
                assert forall|j: int| 0 <= j < i + 1 implies is_normal(#[trigger] p@.questions[j]) by {
                    if j == i {
                        assert(is_normal(q@));
                    }
                }
            }
        }
        i = i + 1;
    }
    if weird {
        None
    } else {
        Some(out)
    }
}

} // verus!
