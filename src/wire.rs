//! Received DNS datagrams, as the plain values that the engine reads.
use vstd::prelude::*;
use dns_parser::RData::{A, AAAA, CNAME};

verus! {

/// A question of a received datagram.
#[derive(Debug)]
pub struct WireQuestion {
    /// Domain name, dotted.
    pub qname: String,
    /// QTYPE code.
    pub qtype: u16,
    /// QCLASS code.
    pub qclass: u16,
}

/// The data of an answer record, as far as the engine reads it.
#[derive(Debug)]
pub enum RecordData {
    /// IPv4 address.
    A([u8; 4]),
    /// IPv6 address.
    Aaaa([u8; 16]),
    /// Alias target name.
    Cname(String),
    /// Any other record type.
    Other,
}

/// An answer record of a received datagram.
#[derive(Debug)]
pub struct WireRecord {
    /// Owner name.
    pub name: String,
    /// CLASS code.
    pub class: u16,
    /// TTL, seconds.
    pub ttl: u32,
    /// Record data.
    pub data: RecordData,
}

/// A received datagram: transaction id, questions and answer records.
#[derive(Debug)]
pub struct WirePacket {
    /// Transaction id.
    pub id: u16,
    /// Question section.
    pub questions: Vec<WireQuestion>,
    /// Answer section.
    pub answers: Vec<WireRecord>,
}

/// Mathematical value of a [`WireQuestion`].
pub struct QuestionModel {
    pub qname: Seq<char>,
    pub qtype: u16,
    pub qclass: u16,
}

/// Mathematical value of a [`RecordData`].
pub enum DataModel {
    A(Seq<u8>),
    Aaaa(Seq<u8>),
    Cname(Seq<char>),
    Other,
}

/// Mathematical value of a [`WireRecord`].
pub struct RecordModel {
    pub name: Seq<char>,
    pub class: u16,
    pub ttl: u32,
    pub data: DataModel,
}

/// Mathematical value of a [`WirePacket`].
pub struct PacketModel {
    pub id: u16,
    pub questions: Seq<QuestionModel>,
    pub answers: Seq<RecordModel>,
}

impl View for WireQuestion {
    type V = QuestionModel;

    open spec fn view(&self) -> QuestionModel {
        QuestionModel { qname: self.qname@, qtype: self.qtype, qclass: self.qclass }
    }
}

impl View for RecordData {
    type V = DataModel;

    open spec fn view(&self) -> DataModel {
        match self {
            RecordData::A(ip) => DataModel::A(ip@),
            RecordData::Aaaa(ip) => DataModel::Aaaa(ip@),
            RecordData::Cname(n) => DataModel::Cname(n@),
            RecordData::Other => DataModel::Other,
        }
    }
}

impl View for WireRecord {
    type V = RecordModel;

    open spec fn view(&self) -> RecordModel {
        RecordModel { name: self.name@, class: self.class, ttl: self.ttl, data: self.data@ }
    }
}

impl View for WirePacket {
    type V = PacketModel;

    open spec fn view(&self) -> PacketModel {
        PacketModel {
            id: self.id,
            questions: self.questions@.map_values(|q: WireQuestion| q@),
            answers: self.answers@.map_values(|a: WireRecord| a@),
        }
    }
}

/// What dns_parser reads from a datagram: `None` where it refuses it.
pub uninterp spec fn parsed_packet(b: Seq<u8>) -> Option<PacketModel>;

/// Relies on dns_parser::Packet::parse, whose result depends on the bytes
/// alone; names come from its `Display` of `Name`, codes from its enums.
#[verifier::external_body]
fn parse_packet(buf: &[u8]) -> (r: Option<WirePacket>)
    ensures
        parsed_packet(buf@) == match r {
            Some(p) => Some(p@),
            None => None::<PacketModel>,
        },
{
    let p = dns_parser::Packet::parse(buf).ok()?;
    Some(WirePacket {
        id: p.header.id,
        questions: p.questions.iter().map(|q| WireQuestion { qname: q.qname.to_string(), qtype: q.qtype as u16, qclass: q.qclass as u16 }).collect(),
        answers: p.answers.iter().map(|a| WireRecord { name: a.name.to_string(), class: a.cls as u16, ttl: a.ttl, data: match a.data {
            A(x) => RecordData::A(x.0.octets()),
            AAAA(x) => RecordData::Aaaa(x.0.octets()),
            CNAME(x) => RecordData::Cname(x.0.to_string()),
            _ => RecordData::Other,
        } }).collect(),
    })
}

/// `c` with ASCII `A`..`Z` mapped to `a`..`z`.
pub open spec fn lower_char(c: char) -> char {
    if 'A' <= c <= 'Z' {
        ((c as u32) + 32) as char
    } else {
        c
    }
}

/// `s` with ASCII letters lowered.
pub open spec fn lower_chars(s: Seq<char>) -> Seq<char> {
    s.map_values(|c: char| lower_char(c))
}

/// Relies on str::to_ascii_lowercase: ASCII letters lowered, all else kept.
#[verifier::external_body]
fn ascii_lowercase(s: &str) -> (r: String)
    ensures
        r@ == lower_chars(s@),
{
    s.to_ascii_lowercase()
}

pub open spec fn lower_question(q: QuestionModel) -> QuestionModel {
    QuestionModel { qname: lower_chars(q.qname), qtype: q.qtype, qclass: q.qclass }
}

pub open spec fn lower_data(d: DataModel) -> DataModel {
    match d {
        DataModel::Cname(n) => DataModel::Cname(lower_chars(n)),
        _ => d,
    }
}

pub open spec fn lower_record(a: RecordModel) -> RecordModel {
    RecordModel { name: lower_chars(a.name), class: a.class, ttl: a.ttl, data: lower_data(a.data) }
}

/// The packet with every domain name lowercased.
pub open spec fn lower_packet(p: PacketModel) -> PacketModel {
    PacketModel {
        id: p.id,
        questions: p.questions.map_values(|q: QuestionModel| lower_question(q)),
        answers: p.answers.map_values(|a: RecordModel| lower_record(a)),
    }
}

fn lowercase_names(p: WirePacket) -> (r: WirePacket)
    ensures
        r@ == lower_packet(p@),
{
    let mut questions: Vec<WireQuestion> = Vec::with_capacity(p.questions.len());
    let mut i: usize = 0;
    while i < p.questions.len()
        invariant
            i <= p.questions@.len(),
            questions@.map_values(|q: WireQuestion| q@) =~= p@.questions.take(i as int).map_values(
                |q: QuestionModel| lower_question(q),
            ),
        decreases p.questions.len() - i,
    {
        let q = &p.questions[i];
        let lq = WireQuestion { qname: ascii_lowercase(q.qname.as_str()), qtype: q.qtype, qclass: q.qclass };
        let ghost prev = questions@;
        questions.push(lq);
        proof {
            assert(questions@.map_values(|q: WireQuestion| q@) =~= prev.map_values(|q: WireQuestion| q@).push(lq@));
            assert(p@.questions.take(i + 1) =~= p@.questions.take(i as int).push(p@.questions[i as int]));
        }
        i = i + 1;
    }
    let mut answers: Vec<WireRecord> = Vec::with_capacity(p.answers.len());
    let mut j: usize = 0;
    while j < p.answers.len()
        invariant
            j <= p.answers@.len(),
            answers@.map_values(|a: WireRecord| a@) =~= p@.answers.take(j as int).map_values(
                |a: RecordModel| lower_record(a),
            ),
        decreases p.answers.len() - j,
    {
        let a = &p.answers[j];
        let data = match &a.data {
            RecordData::A(ip) => RecordData::A(*ip),
            RecordData::Aaaa(ip) => RecordData::Aaaa(*ip),
            RecordData::Cname(n) => RecordData::Cname(ascii_lowercase(n.as_str())),
            RecordData::Other => RecordData::Other,
        };
        let la = WireRecord { name: ascii_lowercase(a.name.as_str()), class: a.class, ttl: a.ttl, data };
        let ghost prev = answers@;
        answers.push(la);
        proof {
            assert(answers@.map_values(|a: WireRecord| a@) =~= prev.map_values(|a: WireRecord| a@).push(la@));
            assert(p@.answers.take(j + 1) =~= p@.answers.take(j as int).push(p@.answers[j as int]));
        }
        j = j + 1;
    }
    proof {
        assert(p@.questions.take(p@.questions.len() as int) =~= p@.questions);
        assert(p@.answers.take(p@.answers.len() as int) =~= p@.answers);
    }
    WirePacket { id: p.id, questions, answers }
}

/// Parses a datagram and lowercases every name in it; `None` where the
/// datagram is malformed.
pub fn read_packet(buf: &[u8]) -> (r: Option<WirePacket>)
    ensures
        match parsed_packet(buf@) {
            Some(m) => r is Some && r->Some_0@ == lower_packet(m),
            None => r is None,
        },
{
    match parse_packet(buf) {
        Some(p) => Some(lowercase_names(p)),
        None => None,
    }
}

} // verus!
