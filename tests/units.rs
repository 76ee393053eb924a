use std::cell::RefCell;

use dnscache::answer::{
    answer_from_entries, client_decision, is_settled, try_answer_request, TryAnswerRequestResult,
};
use dnscache::encode::encode_reply;
use dnscache::record::merge_entry;
use dnscache::request::simplify_questions;
use dnscache::ttl::{adjust_ttl, clamp_ttl, AdjustTtlResult};
use dnscache::upstream::{build_new_entries, get_cname_redirs, make_list_of_ips};
use dnscache::wire::{read_packet, RecordData};
use dnscache::{
    AddrTtl, CacheEntry, CacheEntry2, ClientAddr, Database, Network, Options,
    ReceiveResult, ReplyError, SimplifiedQuestion, SimplifiedRequest,
};

fn rec(ip: &[u8], ttl: u32) -> AddrTtl {
    AddrTtl { ttl, ip: ip.to_vec() }
}

fn client() -> ClientAddr {
    ClientAddr { ip: [127, 0, 0, 1, 0, 0, 0, 0, 0, 0, 0, 0, 0, 0, 0, 0], is_v6: false, port: 53000, flowinfo: 0, scope_id: 0 }
}

fn request(id: u16, qs: &[(&str, bool, bool)]) -> SimplifiedRequest {
    SimplifiedRequest {
        id,
        clientid: client(),
        q: qs.iter().map(|(d, a4, a6)| SimplifiedQuestion { dom: d.to_string(), a4: *a4, a6: *a6 }).collect(),
        inhibit_send: false,
    }
}

fn name(out: &mut Vec<u8>, dom: &str) {
    for l in dom.split('.') {
        out.push(l.len() as u8);
        out.extend_from_slice(l.as_bytes());
    }
    out.push(0);
}

struct MapDb(Vec<(String, CacheEntry)>, usize);

impl Database for MapDb {
    fn get(&mut self, dom: &str) -> Result<Option<CacheEntry>, String> {
        Ok(self.0.iter().find(|(d, _)| d == dom).map(|(_, e)| e.clone()))
    }
    fn put(&mut self, _dom: &str, _entry: &CacheEntry) -> Result<(), String> {
        self.1 += 1;
        Ok(())
    }
    fn flush(&mut self) -> Result<(), String> {
        Ok(())
    }
}

struct SinkNet(RefCell<Vec<Vec<u8>>>, RefCell<usize>);

impl Network for SinkNet {
    fn send_to_client(&self, buf: &[u8], _client: ClientAddr) -> Result<(), String> {
        self.0.borrow_mut().push(buf.to_vec());
        Ok(())
    }
    fn send_to_upstream(&self, _buf: &[u8]) -> Result<(), String> {
        *self.1.borrow_mut() += 1;
        Ok(())
    }
    fn recv_from(&self, _buf: &mut [u8]) -> Result<(usize, ReceiveResult<ClientAddr>), String> {
        Err("nothing to receive".to_string())
    }
}

#[test]
fn adjust_ttl_counts_down_elapsed_time() {
    let (st, v) = adjust_ttl(&vec![rec(&[1, 2, 3, 4], 300)], 1100, 1000, u32::MAX, 0);
    assert_eq!(st, AdjustTtlResult::Fresh);
    assert_eq!(v, vec![rec(&[1, 2, 3, 4], 200)]);
}

#[test]
fn adjust_ttl_marks_expiry_with_zero() {
    let (st, v) = adjust_ttl(&vec![rec(&[1, 1, 1, 1], 600), rec(&[9, 9, 9, 9], 60)], 5000, 4900, u32::MAX, 0);
    assert_eq!(st, AdjustTtlResult::Expired);
    assert_eq!(v, vec![rec(&[1, 1, 1, 1], 500), rec(&[9, 9, 9, 9], 0)]);
    let (st, v) = adjust_ttl(&vec![rec(&[9, 9, 9, 9], 60)], 1060, 1000, u32::MAX, 0);
    assert_eq!(st, AdjustTtlResult::Expired);
    assert_eq!(v[0].ttl, 0);
}

#[test]
fn adjust_ttl_reports_negative_age() {
    let (st, v) = adjust_ttl(&vec![], 1042, 1000, u32::MAX, 0);
    assert_eq!(st, AdjustTtlResult::Negative(42));
    assert!(v.is_empty());
    let (st, _) = adjust_ttl(&vec![], 900, 1000, u32::MAX, 0);
    assert_eq!(st, AdjustTtlResult::Negative(0));
}

#[test]
fn adjust_ttl_clamps_before_counting() {
    let (st, v) = adjust_ttl(&vec![rec(&[1, 2, 3, 4], 5), rec(&[1, 2, 3, 5], 90000)], 1010, 1000, 3600, 60);
    assert_eq!(st, AdjustTtlResult::Fresh);
    assert_eq!(v, vec![rec(&[1, 2, 3, 4], 50), rec(&[1, 2, 3, 5], 3590)]);
}

#[test]
fn adjust_ttl_is_monotone_over_time() {
    let v = vec![rec(&[1, 2, 3, 4], 300)];
    let (_, at1) = adjust_ttl(&v, 1100, 1000, u32::MAX, 0);
    let (_, at2) = adjust_ttl(&v, 1250, 1000, u32::MAX, 0);
    let (_, at3) = adjust_ttl(&v, 1400, 1000, u32::MAX, 0);
    assert!(at2[0].ttl <= at1[0].ttl.saturating_sub(150));
    assert_eq!(at2[0].ttl, 50);
    assert_eq!(at3[0].ttl, 0);
}

#[test]
fn clamp_ttl_limits_both_ways() {
    assert_eq!(clamp_ttl(10, 5, 20), 10);
    assert_eq!(clamp_ttl(10, 25, 20), 20);
    assert_eq!(clamp_ttl(10, 15, 20), 15);
    assert_eq!(clamp_ttl(30, 25, 20), 30);
}

#[test]
fn options_default_values() {
    let o = Options::default();
    assert_eq!((o.neg_ttl, o.max_ttl, o.min_ttl), (30, 0xFFFF_FFFF, 0));
}

#[test]
fn encode_reply_exact_bytes() {
    let r = request(0x0001, &[("example.com", true, false)]);
    let a = vec![("example.com".to_string(), vec![rec(&[1, 2, 3, 4], 200)])];
    let out = encode_reply(&r, &a, &vec![]).unwrap();
    let mut want = vec![0, 1, 0x81, 0x80, 0, 1, 0, 1, 0, 0, 0, 0];
    name(&mut want, "example.com");
    want.extend_from_slice(&[0, 1, 0, 1]);
    name(&mut want, "example.com");
    want.extend_from_slice(&[0, 1, 0, 1, 0, 0, 0, 200, 0, 4, 1, 2, 3, 4]);
    assert_eq!(out, want);
}

#[test]
fn encode_reply_question_types() {
    let r = request(9, &[("a.b", true, true), ("c.d", false, true), ("e.f", false, false)]);
    let out = encode_reply(&r, &vec![], &vec![]).unwrap();
    assert_eq!(&out[4..6], &[0, 3]);
    assert_eq!(&out[17..19], &[0x00, 0xFF]);
    assert_eq!(&out[26..28], &[0x00, 0x1C]);
    assert_eq!(&out[35..37], &[0x00, 0x00]);
}

#[test]
fn encode_reply_aaaa_record() {
    let r = request(2, &[("v6.test", false, true)]);
    let ip: Vec<u8> = (1..=16).collect();
    let aaaa = vec![("v6.test".to_string(), vec![rec(&ip, 77)])];
    let out = encode_reply(&r, &vec![], &aaaa).unwrap();
    let n = out.len();
    assert_eq!(&out[n - 16..], &ip[..]);
    assert_eq!(&out[n - 26..n - 16], &[0, 0x1C, 0, 1, 0, 0, 0, 77, 0, 16]);
}

#[test]
fn encode_reply_rejects_bad_address_lengths() {
    let r = request(2, &[("x.test", true, true)]);
    let bad4 = vec![("x.test".to_string(), vec![rec(&[1, 2, 3], 1)])];
    let bad6 = vec![("x.test".to_string(), vec![rec(&[1, 2, 3, 4], 1)])];
    assert_eq!(encode_reply(&r, &bad4, &vec![]), Err(ReplyError::BadIpv4Length));
    assert_eq!(encode_reply(&r, &vec![], &bad6), Err(ReplyError::BadIpv6Length));
    assert_eq!(encode_reply(&r, &bad4, &bad6), Err(ReplyError::BadIpv4Length));
}

#[test]
fn encoded_reply_parses_back() {
    let r = request(0xBEEF, &[("www.example.org", true, false), ("v6.example.org", false, true)]);
    let a = vec![("www.example.org".to_string(), vec![rec(&[10, 0, 0, 1], 30), rec(&[10, 0, 0, 2], 40)])];
    let ip6: Vec<u8> = (100..116).collect();
    let aaaa = vec![("v6.example.org".to_string(), vec![rec(&ip6, 50)])];
    let out = encode_reply(&r, &a, &aaaa).unwrap();
    let p = dns_parser::Packet::parse(&out).unwrap();
    assert_eq!(p.header.id, 0xBEEF);
    assert_eq!(u16::from_be_bytes([out[2], out[3]]), 0x8180);
    assert_eq!(p.header.questions, 2);
    assert_eq!(p.header.answers, 3);
    assert_eq!(p.questions[0].qname.to_string(), "www.example.org");
    assert_eq!(p.questions[0].qtype, dns_parser::QueryType::A);
    assert_eq!(p.questions[1].qtype, dns_parser::QueryType::AAAA);
    assert_eq!(p.questions[1].qclass, dns_parser::QueryClass::IN);
    let got: Vec<(String, u32)> = p.answers.iter().map(|x| (x.name.to_string(), x.ttl)).collect();
    assert_eq!(
        got,
        vec![
            ("www.example.org".to_string(), 30),
            ("www.example.org".to_string(), 40),
            ("v6.example.org".to_string(), 50)
        ]
    );
    match p.answers[1].data {
        dns_parser::RData::A(x) => assert_eq!(x.0.octets(), [10, 0, 0, 2]),
        _ => panic!("not an A record"),
    }
    match p.answers[2].data {
        dns_parser::RData::AAAA(x) => assert_eq!(x.0.octets().to_vec(), ip6),
        _ => panic!("not an AAAA record"),
    }
}

#[test]
fn merge_refuses_to_forget_records() {
    let old = CacheEntry { a4: Some(CacheEntry2 { t: 1, a: vec![rec(&[1, 1, 1, 1], 5)] }), a6: None };
    let new = CacheEntry { a4: Some(CacheEntry2 { t: 2, a: vec![] }), a6: Some(CacheEntry2 { t: 2, a: vec![] }) };
    let m = merge_entry(new, old.clone());
    assert_eq!(m.a4, old.a4);
    assert_eq!(m.a6, Some(CacheEntry2 { t: 2, a: vec![] }));
}

#[test]
fn merge_inherits_absent_families_and_takes_new_records() {
    let old = CacheEntry {
        a4: Some(CacheEntry2 { t: 1, a: vec![rec(&[1, 1, 1, 1], 5)] }),
        a6: Some(CacheEntry2 { t: 1, a: vec![] }),
    };
    let new = CacheEntry { a4: Some(CacheEntry2 { t: 2, a: vec![rec(&[2, 2, 2, 2], 9)] }), a6: None };
    let m = merge_entry(new, old.clone());
    assert_eq!(m.a4, Some(CacheEntry2 { t: 2, a: vec![rec(&[2, 2, 2, 2], 9)] }));
    assert_eq!(m.a6, old.a6);
    let fresh = merge_entry(CacheEntry { a4: Some(CacheEntry2 { t: 3, a: vec![] }), a6: None }, CacheEntry::default());
    assert_eq!(fresh, CacheEntry { a4: Some(CacheEntry2 { t: 3, a: vec![] }), a6: None });
}

#[test]
fn answer_from_entries_counts_unknowns() {
    let r = request(1, &[("a.test", true, true), ("b.test", true, false), ("c.test", false, true)]);
    let e_a = CacheEntry { a4: None, a6: Some(CacheEntry2 { t: 0, a: vec![] }) };
    let e_b = CacheEntry { a4: Some(CacheEntry2 { t: 0, a: vec![] }), a6: None };
    let (res, a4, a6) = answer_from_entries(&r, &vec![Some(e_a), Some(e_b), None], 10, u32::MAX, 0);
    assert_eq!(res, TryAnswerRequestResult::UnknownsRemain(2));
    assert_eq!(a4.len(), 1);
    assert!(a6.is_empty());
}

#[test]
fn answer_from_entries_first_non_fresh_status_wins() {
    let r = request(1, &[("a.test", true, false), ("b.test", true, false), ("c.test", true, false)]);
    let fresh = CacheEntry { a4: Some(CacheEntry2 { t: 100, a: vec![rec(&[1, 1, 1, 1], 50)] }), a6: None };
    let expired = CacheEntry { a4: Some(CacheEntry2 { t: 0, a: vec![rec(&[2, 2, 2, 2], 50)] }), a6: None };
    let negative = CacheEntry { a4: Some(CacheEntry2 { t: 90, a: vec![] }), a6: None };
    let (res, a4, _) = answer_from_entries(&r, &vec![Some(fresh), Some(expired), Some(negative)], 110, u32::MAX, 0);
    assert_eq!(res, TryAnswerRequestResult::Resolved(AdjustTtlResult::Expired));
    assert_eq!(a4[0].1, vec![rec(&[1, 1, 1, 1], 40)]);
    assert_eq!(a4[1].1, vec![rec(&[2, 2, 2, 2], 0)]);
    assert!(a4[2].1.is_empty());
}

#[test]
fn warm_cache_answers_with_elapsed_ttl() {
    let mut db = MapDb(
        vec![("example.com".to_string(), CacheEntry { a4: Some(CacheEntry2 { t: 1000, a: vec![rec(&[1, 2, 3, 4], 300)] }), a6: None })],
        0,
    );
    let net = SinkNet(RefCell::new(vec![]), RefCell::new(0));
    let r = request(0x0001, &[("example.com", true, false)]);
    let res = try_answer_request(&mut db, 1100, &net, &r, u32::MAX, 0).unwrap();
    assert_eq!(res, TryAnswerRequestResult::Resolved(AdjustTtlResult::Fresh));
    let sent = net.0.borrow();
    assert_eq!(sent.len(), 1);
    let b = &sent[0];
    assert_eq!(&b[4..8], &[0, 1, 0, 1]);
    let n = b.len();
    assert_eq!(&b[n - 10..], &[0, 0, 0, 200, 0, 4, 1, 2, 3, 4]);
    assert_eq!(*net.1.borrow(), 0);
    assert_eq!(db.1, 0);
}

#[test]
fn expired_cache_answer_has_zero_ttl() {
    let mut db = MapDb(
        vec![("expired.test".to_string(), CacheEntry { a4: Some(CacheEntry2 { t: 1000, a: vec![rec(&[4, 3, 2, 1], 60)] }), a6: None })],
        0,
    );
    let net = SinkNet(RefCell::new(vec![]), RefCell::new(0));
    let r = request(3, &[("expired.test", true, false)]);
    let res = try_answer_request(&mut db, 5000, &net, &r, u32::MAX, 0).unwrap();
    assert_eq!(res, TryAnswerRequestResult::Resolved(AdjustTtlResult::Expired));
    assert_eq!(client_decision(res, 30), Some(true));
    let b = &net.0.borrow()[0];
    let n = b.len();
    assert_eq!(&b[n - 10..], &[0, 0, 0, 0, 0, 4, 4, 3, 2, 1]);
}

#[test]
fn inhibited_request_sends_nothing() {
    let mut db = MapDb(
        vec![("x.test".to_string(), CacheEntry { a4: Some(CacheEntry2 { t: 1000, a: vec![rec(&[4, 3, 2, 1], 60)] }), a6: None })],
        0,
    );
    let net = SinkNet(RefCell::new(vec![]), RefCell::new(0));
    let mut r = request(3, &[("x.test", true, false)]);
    r.inhibit_send = true;
    let res = try_answer_request(&mut db, 1001, &net, &r, u32::MAX, 0).unwrap();
    assert_eq!(res, TryAnswerRequestResult::Resolved(AdjustTtlResult::Fresh));
    assert!(net.0.borrow().is_empty());
}

#[test]
fn client_decision_table() {
    assert_eq!(client_decision(TryAnswerRequestResult::Resolved(AdjustTtlResult::Fresh), 30), None);
    assert_eq!(client_decision(TryAnswerRequestResult::Resolved(AdjustTtlResult::Expired), 30), Some(true));
    assert_eq!(client_decision(TryAnswerRequestResult::Resolved(AdjustTtlResult::Negative(29)), 30), None);
    assert_eq!(client_decision(TryAnswerRequestResult::Resolved(AdjustTtlResult::Negative(30)), 30), Some(true));
    assert_eq!(client_decision(TryAnswerRequestResult::UnknownsRemain(1), 30), Some(false));
}

#[test]
fn settled_table() {
    assert!(is_settled(TryAnswerRequestResult::Resolved(AdjustTtlResult::Fresh), false));
    assert!(is_settled(TryAnswerRequestResult::Resolved(AdjustTtlResult::Fresh), true));
    assert!(is_settled(TryAnswerRequestResult::Resolved(AdjustTtlResult::Expired), false));
    assert!(!is_settled(TryAnswerRequestResult::Resolved(AdjustTtlResult::Expired), true));
    assert!(is_settled(TryAnswerRequestResult::Resolved(AdjustTtlResult::Negative(5)), true));
    assert!(!is_settled(TryAnswerRequestResult::UnknownsRemain(1), false));
}

fn packet(id: u16, questions: &[(&str, u16, u16)], answers: &[(&str, u16, Vec<u8>)]) -> Vec<u8> {
    let mut v = Vec::new();
    for x in [id, 0x8180, questions.len() as u16, answers.len() as u16, 0, 0] {
        v.extend_from_slice(&x.to_be_bytes());
    }
    for (d, t, c) in questions {
        name(&mut v, d);
        v.extend_from_slice(&t.to_be_bytes());
        v.extend_from_slice(&c.to_be_bytes());
    }
    for (d, t, data) in answers {
        name(&mut v, d);
        v.extend_from_slice(&t.to_be_bytes());
        v.extend_from_slice(&[0, 1, 0, 0, 0, 60]);
        v.extend_from_slice(&(data.len() as u16).to_be_bytes());
        v.extend_from_slice(data);
    }
    v
}

fn name_bytes(d: &str) -> Vec<u8> {
    let mut v = Vec::new();
    name(&mut v, d);
    v
}

#[test]
fn read_packet_lowercases_names() {
    let buf = packet(77, &[("WWW.Example.COM", 1, 1)], &[("WWW.example.com", 5, name_bytes("Target.NET")), ("target.net", 1, vec![1, 2, 3, 4])]);
    let p = read_packet(&buf).unwrap();
    assert_eq!(p.id, 77);
    assert_eq!(p.questions[0].qname, "www.example.com");
    assert_eq!((p.questions[0].qtype, p.questions[0].qclass), (1, 1));
    assert_eq!(p.answers[0].name, "www.example.com");
    match &p.answers[0].data {
        RecordData::Cname(t) => assert_eq!(t, "target.net"),
        other => panic!("{:?}", other),
    }
    match &p.answers[1].data {
        RecordData::A(ip) => assert_eq!(ip, &[1, 2, 3, 4]),
        other => panic!("{:?}", other),
    }
    assert!(read_packet(&[0, 1, 2]).is_none());
}

#[test]
fn simplify_questions_classifies() {
    let normal = read_packet(&packet(1, &[("a.test", 1, 1), ("b.test", 28, 255)], &[])).unwrap();
    let qs = simplify_questions(&normal).unwrap();
    assert_eq!(qs.len(), 2);
    assert_eq!((qs[0].dom.as_str(), qs[0].a4, qs[0].a6), ("a.test", true, false));
    assert_eq!((qs[1].dom.as_str(), qs[1].a4, qs[1].a6), ("b.test", false, true));
    for (t, c) in [(255u16, 1u16), (15, 1), (1, 3)] {
        let weird = read_packet(&packet(1, &[("a.test", 1, 1), ("c.test", t, c)], &[])).unwrap();
        assert!(simplify_questions(&weird).is_none());
    }
}

#[test]
fn cname_pipeline_builds_candidate_under_asked_name() {
    let buf = packet(
        5,
        &[("www.a.test", 1, 1)],
        &[("www.a.test", 5, name_bytes("b.test")), ("b.test", 1, vec![10, 0, 0, 1])],
    );
    let p = read_packet(&buf).unwrap();
    let cnames = get_cname_redirs(&p);
    assert_eq!(cnames, vec![("b.test".to_string(), "www.a.test".to_string())]);
    let ips = make_list_of_ips(&p, &cnames).unwrap();
    assert_eq!(ips.len(), 1);
    assert_eq!((ips[0].dom.as_str(), ips[0].v6, ips[0].ttl), ("www.a.test", false, 60));
    let tmp = build_new_entries(&p, ips, 4242);
    assert_eq!(tmp.len(), 1);
    assert_eq!(tmp[0].0, "www.a.test");
    assert_eq!(tmp[0].1, CacheEntry { a4: Some(CacheEntry2 { t: 4242, a: vec![rec(&[10, 0, 0, 1], 60)] }), a6: None });
}

#[test]
fn candidates_seed_families_from_question_types() {
    let buf = packet(
        5,
        &[("all.test", 255, 1), ("six.test", 28, 1), ("chaos.test", 1, 3)],
        &[("extra.test", 28, (0..16).collect())],
    );
    let p = read_packet(&buf).unwrap();
    let cnames = get_cname_redirs(&p);
    let ips = make_list_of_ips(&p, &cnames).unwrap();
    let tmp = build_new_entries(&p, ips, 7);
    let doms: Vec<&str> = tmp.iter().map(|(d, _)| d.as_str()).collect();
    assert_eq!(doms, vec!["all.test", "six.test", "extra.test"]);
    let empty = CacheEntry2 { t: 7, a: vec![] };
    assert_eq!(tmp[0].1, CacheEntry { a4: Some(empty.clone()), a6: Some(empty.clone()) });
    assert_eq!(tmp[1].1, CacheEntry { a4: None, a6: Some(empty) });
    assert_eq!(tmp[2].1.a6.as_ref().unwrap().a[0].ip, (0..16).collect::<Vec<u8>>());
}

#[test]
fn cname_cycle_is_refused() {
    let buf = packet(
        5,
        &[("x.test", 1, 1)],
        &[("x.test", 5, name_bytes("y.test")), ("y.test", 5, name_bytes("x.test")), ("x.test", 1, vec![1, 1, 1, 1])],
    );
    let p = read_packet(&buf).unwrap();
    let cnames = get_cname_redirs(&p);
    assert!(make_list_of_ips(&p, &cnames).is_none());
}

#[test]
fn answer_count_is_capped() {
    let r = request(1, &[("big.test", true, false)]);
    let recs: Vec<AddrTtl> = (0..70000u32).map(|i| rec(&i.to_be_bytes(), 1)).collect();
    let a = vec![("big.test".to_string(), recs)];
    let out = encode_reply(&r, &a, &vec![]).unwrap();
    assert_eq!(&out[6..8], &[0xFF, 0xFF]);
}

#[test]
fn repeated_question_gives_one_candidate() {
    let buf = packet(
        5,
        &[("dup.test", 1, 1), ("dup.test", 28, 1)],
        &[("dup.test", 1, vec![1, 2, 3, 4]), ("dup.test", 1, vec![5, 6, 7, 8])],
    );
    let p = read_packet(&buf).unwrap();
    let cnames = get_cname_redirs(&p);
    let ips = make_list_of_ips(&p, &cnames).unwrap();
    let tmp = build_new_entries(&p, ips, 9);
    assert_eq!(tmp.len(), 1);
    assert_eq!(
        tmp[0].1,
        CacheEntry {
            a4: Some(CacheEntry2 { t: 9, a: vec![rec(&[1, 2, 3, 4], 60), rec(&[5, 6, 7, 8], 60)] }),
            a6: Some(CacheEntry2 { t: 9, a: vec![] }),
        }
    );
}

#[test]
fn empty_request_encodes_header_only() {
    let r = request(0xFFFF, &[]);
    let out = encode_reply(&r, &vec![], &vec![]).unwrap();
    assert_eq!(out, vec![0xFF, 0xFF, 0x81, 0x80, 0, 0, 0, 0, 0, 0, 0, 0]);
}

#[test]
fn refresh_with_no_questions_succeeds_without_calls() {
    struct NoCalls;
    impl Database for NoCalls {
        fn get(&mut self, _dom: &str) -> Result<Option<CacheEntry>, String> {
            Err("called".to_string())
        }
        fn put(&mut self, _dom: &str, _entry: &CacheEntry) -> Result<(), String> {
            Err("called".to_string())
        }
        fn flush(&mut self) -> Result<(), String> {
            Err("called".to_string())
        }
    }
    let net = SinkNet(RefCell::new(vec![]), RefCell::new(0));
    let mut r = request(1, &[]);
    r.inhibit_send = true;
    let res = try_answer_request(&mut NoCalls, 10, &net, &r, u32::MAX, 0);
    assert_eq!(res, Ok(TryAnswerRequestResult::Resolved(AdjustTtlResult::Fresh)));
    assert!(net.0.borrow().is_empty());
}
