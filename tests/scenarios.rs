use std::cell::RefCell;
use std::collections::HashMap;
use std::rc::Rc;
use std::time::{SystemTime, UNIX_EPOCH};

use dnscache::{
    AddrTtl, CacheEntry, CacheEntry2, CacheError, ClientAddr, Database, DnsCache, Network, Options,
    ReceiveResult,
};

#[derive(Default)]
struct NetLog {
    inbox: Vec<(Vec<u8>, ReceiveResult<ClientAddr>)>,
    to_clients: Vec<(Vec<u8>, ClientAddr)>,
    to_upstream: Vec<Vec<u8>>,
}

struct FakeNet(Rc<RefCell<NetLog>>);

impl Network for FakeNet {
    fn send_to_client(&self, buf: &[u8], client: ClientAddr) -> Result<(), String> {
        self.0.borrow_mut().to_clients.push((buf.to_vec(), client));
        Ok(())
    }
    fn send_to_upstream(&self, buf: &[u8]) -> Result<(), String> {
        self.0.borrow_mut().to_upstream.push(buf.to_vec());
        Ok(())
    }
    fn recv_from(&self, buf: &mut [u8]) -> Result<(usize, ReceiveResult<ClientAddr>), String> {
        let (data, src) = self.0.borrow_mut().inbox.remove(0);
        buf[..data.len()].copy_from_slice(&data);
        Ok((data.len(), src))
    }
}

#[derive(Default)]
struct StoreLog {
    entries: HashMap<String, CacheEntry>,
    puts: Vec<String>,
    flushes: usize,
}

struct FakeDb(Rc<RefCell<StoreLog>>);

impl Database for FakeDb {
    fn get(&mut self, dom: &str) -> Result<Option<CacheEntry>, String> {
        Ok(self.0.borrow().entries.get(dom).cloned())
    }
    fn put(&mut self, dom: &str, entry: &CacheEntry) -> Result<(), String> {
        let mut s = self.0.borrow_mut();
        s.entries.insert(dom.to_string(), entry.clone());
        s.puts.push(dom.to_string());
        Ok(())
    }
    fn flush(&mut self) -> Result<(), String> {
        self.0.borrow_mut().flushes += 1;
        Ok(())
    }
}

struct Rig {
    net: Rc<RefCell<NetLog>>,
    store: Rc<RefCell<StoreLog>>,
    cache: DnsCache<FakeDb, FakeNet>,
}

impl Rig {
    fn new() -> Rig {
        let net = Rc::new(RefCell::new(NetLog::default()));
        let store = Rc::new(RefCell::new(StoreLog::default()));
        let cache = DnsCache::new(FakeDb(store.clone()), FakeNet(net.clone()), Options::default());
        Rig { net, store, cache }
    }

    fn from_client(&mut self, c: ClientAddr, data: Vec<u8>) -> Result<(), CacheError> {
        self.net.borrow_mut().inbox.push((data, ReceiveResult::FromClient(c)));
        self.cache.serve_one_packet()
    }

    fn from_upstream(&mut self, data: Vec<u8>) -> Result<(), CacheError> {
        self.net.borrow_mut().inbox.push((data, ReceiveResult::FromUpstream));
        self.cache.serve_one_packet()
    }
}

fn client(n: u8) -> ClientAddr {
    let mut ip = [0u8; 16];
    ip[0] = 192;
    ip[1] = 168;
    ip[3] = n;
    ClientAddr { ip, is_v6: false, port: 5000 + n as u16, flowinfo: 0, scope_id: 0 }
}

fn now() -> u64 {
    SystemTime::now().duration_since(UNIX_EPOCH).unwrap().as_secs()
}

fn name(out: &mut Vec<u8>, dom: &str) {
    for l in dom.split('.') {
        out.push(l.len() as u8);
        out.extend_from_slice(l.as_bytes());
    }
    out.push(0);
}

fn header(id: u16, flags: u16, qd: u16, an: u16) -> Vec<u8> {
    let mut v = Vec::new();
    for x in [id, flags, qd, an, 0, 0] {
        v.extend_from_slice(&x.to_be_bytes());
    }
    v
}

fn query(id: u16, dom: &str, qtype: u16, qclass: u16) -> Vec<u8> {
    let mut v = header(id, 0x0100, 1, 0);
    name(&mut v, dom);
    v.extend_from_slice(&qtype.to_be_bytes());
    v.extend_from_slice(&qclass.to_be_bytes());
    v
}

enum Rr<'a> {
    A(&'a str, [u8; 4], u32),
    Cname(&'a str, &'a str),
}

fn reply(id: u16, dom: &str, qtype: u16, answers: &[Rr]) -> Vec<u8> {
    let mut v = header(id, 0x8180, 1, answers.len() as u16);
    name(&mut v, dom);
    v.extend_from_slice(&qtype.to_be_bytes());
    v.extend_from_slice(&1u16.to_be_bytes());
    for a in answers {
        match a {
            Rr::A(owner, ip, ttl) => {
                name(&mut v, owner);
                v.extend_from_slice(&[0, 1, 0, 1]);
                v.extend_from_slice(&ttl.to_be_bytes());
                v.extend_from_slice(&[0, 4]);
                v.extend_from_slice(ip);
            }
            Rr::Cname(owner, target) => {
                name(&mut v, owner);
                v.extend_from_slice(&[0, 5, 0, 1, 0, 0, 0, 60]);
                let mut t = Vec::new();
                name(&mut t, target);
                v.extend_from_slice(&(t.len() as u16).to_be_bytes());
                v.extend_from_slice(&t);
            }
        }
    }
    v
}

fn u16_at(b: &[u8], i: usize) -> u16 {
    u16::from_be_bytes([b[i], b[i + 1]])
}

fn a_entry(t: u64, ips: &[([u8; 4], u32)]) -> CacheEntry {
    CacheEntry {
        a4: Some(CacheEntry2 { t, a: ips.iter().map(|(ip, ttl)| AddrTtl { ttl: *ttl, ip: ip.to_vec() }).collect() }),
        a6: None,
    }
}

#[test]
fn cold_a_query_is_forwarded_and_registered() {
    let mut rig = Rig::new();
    let q = query(0x1234, "example.com", 1, 1);
    rig.from_client(client(1), q.clone()).unwrap();
    assert_eq!(rig.net.borrow().to_upstream, vec![q]);
    assert!(rig.net.borrow().to_clients.is_empty());
    // The registered request is what makes the upstream reply acceptable.
    rig.from_upstream(reply(0x1234, "example.com", 1, &[Rr::A("example.com", [1, 2, 3, 4], 300)])).unwrap();
    assert_eq!(rig.store.borrow().puts, vec!["example.com".to_string()]);
    let net = rig.net.borrow();
    assert_eq!(net.to_clients.len(), 1);
    assert_eq!(u16_at(&net.to_clients[0].0, 0), 0x1234);
    assert_eq!(net.to_clients[0].1, client(1));
}

#[test]
fn expired_entry_answers_with_zero_ttl_and_refreshes() {
    let mut rig = Rig::new();
    rig.store.borrow_mut().entries.insert("expired.test".to_string(), a_entry(1000, &[([9, 9, 9, 9], 60)]));
    let q = query(7, "expired.test", 1, 1);
    rig.from_client(client(1), q.clone()).unwrap();
    {
        let net = rig.net.borrow();
        assert_eq!(net.to_clients.len(), 1);
        let r = &net.to_clients[0].0;
        assert_eq!(u16_at(r, 6), 1);
        let n = r.len();
        assert_eq!(&r[n - 4..], &[9, 9, 9, 9]);
        assert_eq!(&r[n - 10..n - 6], &[0, 0, 0, 0]);
        assert_eq!(net.to_upstream, vec![q]);
    }
    // A background refresh: the upstream answer updates the store, no second reply.
    rig.from_upstream(reply(7, "expired.test", 1, &[Rr::A("expired.test", [8, 8, 8, 8], 60)])).unwrap();
    assert_eq!(rig.net.borrow().to_clients.len(), 1);
    let st = rig.store.borrow();
    assert_eq!(st.entries["expired.test"].a4.as_ref().unwrap().a[0].ip, vec![8, 8, 8, 8]);
}

#[test]
fn recent_negative_entry_is_answered_without_upstream() {
    let mut rig = Rig::new();
    rig.store
        .borrow_mut()
        .entries
        .insert("neg.test".to_string(), CacheEntry { a4: Some(CacheEntry2 { t: now() - 10, a: vec![] }), a6: None });
    rig.from_client(client(1), query(3, "neg.test", 1, 1)).unwrap();
    let net = rig.net.borrow();
    assert!(net.to_upstream.is_empty());
    assert_eq!(net.to_clients.len(), 1);
    assert_eq!(u16_at(&net.to_clients[0].0, 4), 1);
    assert_eq!(u16_at(&net.to_clients[0].0, 6), 0);
}

#[test]
fn old_negative_entry_is_answered_and_refreshed() {
    let mut rig = Rig::new();
    rig.store
        .borrow_mut()
        .entries
        .insert("neg.test".to_string(), CacheEntry { a4: Some(CacheEntry2 { t: now() - 100, a: vec![] }), a6: None });
    rig.from_client(client(1), query(3, "neg.test", 1, 1)).unwrap();
    let net = rig.net.borrow();
    assert_eq!(net.to_upstream.len(), 1);
    assert_eq!(net.to_clients.len(), 1);
}

#[test]
fn coalesced_requests_are_answered_together() {
    let mut rig = Rig::new();
    rig.from_client(client(1), query(0xAAAA, "x.test", 1, 1)).unwrap();
    rig.from_client(client(2), query(0xBBBB, "x.test", 1, 1)).unwrap();
    assert_eq!(rig.net.borrow().to_upstream.len(), 2);
    rig.from_upstream(reply(0xAAAA, "x.test", 1, &[Rr::A("x.test", [10, 1, 1, 1], 120)])).unwrap();
    let net = rig.net.borrow();
    assert_eq!(net.to_clients.len(), 2);
    let mut got: Vec<(u16, ClientAddr)> = net.to_clients.iter().map(|(b, c)| (u16_at(b, 0), *c)).collect();
    got.sort_by_key(|x| x.0);
    assert_eq!(got, vec![(0xAAAA, client(1)), (0xBBBB, client(2))]);
    assert_eq!(rig.store.borrow().puts.len(), 1);
}

#[test]
fn cname_answer_is_stored_under_the_asked_name() {
    let mut rig = Rig::new();
    rig.from_client(client(1), query(5, "www.a.test", 1, 1)).unwrap();
    rig.from_upstream(reply(
        5,
        "www.a.test",
        1,
        &[Rr::Cname("www.a.test", "b.test"), Rr::A("b.test", [10, 0, 0, 1], 60)],
    ))
    .unwrap();
    let st = rig.store.borrow();
    assert_eq!(st.puts, vec!["www.a.test".to_string()]);
    let a4 = st.entries["www.a.test"].a4.as_ref().unwrap();
    assert_eq!(a4.a, vec![AddrTtl { ttl: 60, ip: vec![10, 0, 0, 1] }]);
    assert_eq!(rig.net.borrow().to_clients.len(), 1);
}

#[test]
fn fresh_hit_sends_one_reply_and_stores_nothing() {
    let mut rig = Rig::new();
    rig.store.borrow_mut().entries.insert("hit.test".to_string(), a_entry(now(), &[([1, 2, 3, 4], 3000)]));
    rig.from_client(client(4), query(11, "hit.test", 1, 1)).unwrap();
    let net = rig.net.borrow();
    assert_eq!(net.to_clients.len(), 1);
    assert_eq!(net.to_clients[0].1, client(4));
    assert!(net.to_upstream.is_empty());
    let st = rig.store.borrow();
    assert!(st.puts.is_empty());
    assert_eq!(st.flushes, 0);
}

#[test]
fn empty_upstream_answer_does_not_forget_records() {
    let mut rig = Rig::new();
    let old = a_entry(1000, &[([5, 5, 5, 5], 60)]);
    rig.store.borrow_mut().entries.insert("keep.test".to_string(), old.clone());
    rig.from_client(client(1), query(21, "keep.test", 1, 1)).unwrap();
    rig.from_upstream(reply(21, "keep.test", 1, &[])).unwrap();
    let st = rig.store.borrow();
    assert_eq!(st.puts, vec!["keep.test".to_string()]);
    assert_eq!(st.entries["keep.test"].a4, old.a4);
}

#[test]
fn spoofed_reply_is_dropped() {
    let mut rig = Rig::new();
    rig.from_client(client(1), query(0x1111, "victim.test", 1, 1)).unwrap();
    rig.from_upstream(reply(0x2222, "victim.test", 1, &[Rr::A("victim.test", [6, 6, 6, 6], 9999)])).unwrap();
    rig.from_upstream(reply(0x1111, "other.test", 1, &[Rr::A("other.test", [6, 6, 6, 6], 9999)])).unwrap();
    assert!(rig.net.borrow().to_clients.is_empty());
    assert!(rig.store.borrow().puts.is_empty());
}

#[test]
fn smuggled_cname_target_is_dropped() {
    let mut rig = Rig::new();
    rig.from_client(client(1), query(0x3333, "asked.test", 1, 1)).unwrap();
    rig.from_upstream(reply(0x3333, "asked.test", 1, &[Rr::A("bank.test", [6, 6, 6, 6], 9999)])).unwrap();
    assert!(rig.net.borrow().to_clients.is_empty());
    assert!(rig.store.borrow().puts.is_empty());
}

#[test]
fn long_cname_chain_is_dropped() {
    let mut rig = Rig::new();
    rig.from_client(client(1), query(9, "c0.test", 1, 1)).unwrap();
    let names: Vec<String> = (0..12).map(|i| format!("c{}.test", i)).collect();
    let mut rrs = Vec::new();
    for i in 0..11 {
        rrs.push(Rr::Cname(&names[i], &names[i + 1]));
    }
    rrs.push(Rr::A(&names[11], [7, 7, 7, 7], 60));
    rig.from_upstream(reply(9, "c0.test", 1, &rrs)).unwrap();
    assert!(rig.net.borrow().to_clients.is_empty());
    assert!(rig.store.borrow().puts.is_empty());
}

#[test]
fn short_cname_chain_is_followed() {
    let mut rig = Rig::new();
    rig.from_client(client(1), query(9, "c0.test", 1, 1)).unwrap();
    let names: Vec<String> = (0..10).map(|i| format!("c{}.test", i)).collect();
    let mut rrs = Vec::new();
    for i in 0..9 {
        rrs.push(Rr::Cname(&names[i], &names[i + 1]));
    }
    rrs.push(Rr::A(&names[9], [7, 7, 7, 7], 60));
    rig.from_upstream(reply(9, "c0.test", 1, &rrs)).unwrap();
    assert_eq!(rig.store.borrow().puts, vec!["c0.test".to_string()]);
    assert_eq!(rig.net.borrow().to_clients.len(), 1);
}

#[test]
fn pass_through_query_is_relayed_both_ways() {
    let mut rig = Rig::new();
    let q = query(0x4444, "mail.test", 15, 1);
    rig.from_client(client(3), q.clone()).unwrap();
    assert_eq!(rig.net.borrow().to_upstream, vec![q]);
    let r = reply(0x4444, "mail.test", 15, &[]);
    rig.from_upstream(r.clone()).unwrap();
    let net = rig.net.borrow();
    assert_eq!(net.to_clients, vec![(r, client(3))]);
    assert!(rig.store.borrow().puts.is_empty());
}

#[test]
fn type_all_query_is_passed_through() {
    let mut rig = Rig::new();
    rig.from_client(client(3), query(0x5555, "all.test", 255, 1)).unwrap();
    assert_eq!(rig.net.borrow().to_upstream.len(), 1);
    assert!(rig.net.borrow().to_clients.is_empty());
}

#[test]
fn malformed_datagram_is_a_parse_error() {
    let mut rig = Rig::new();
    assert_eq!(rig.from_client(client(1), vec![1, 2, 3]), Err(CacheError::Parse));
    assert_eq!(rig.from_upstream(vec![0xFF]), Err(CacheError::Parse));
}

#[test]
fn names_are_matched_without_case() {
    let mut rig = Rig::new();
    rig.from_client(client(1), query(0x6666, "MiXeD.Test", 1, 1)).unwrap();
    rig.from_upstream(reply(0x6666, "mixed.TEST", 1, &[Rr::A("MIXED.test", [3, 3, 3, 3], 60)])).unwrap();
    assert_eq!(rig.store.borrow().puts, vec!["mixed.test".to_string()]);
    assert_eq!(rig.net.borrow().to_clients.len(), 1);
}

#[test]
fn store_failure_is_reported() {
    struct FailingDb;
    impl Database for FailingDb {
        fn get(&mut self, _dom: &str) -> Result<Option<CacheEntry>, String> {
            Err("disk".to_string())
        }
        fn put(&mut self, _dom: &str, _entry: &CacheEntry) -> Result<(), String> {
            Ok(())
        }
        fn flush(&mut self) -> Result<(), String> {
            Ok(())
        }
    }
    let net = Rc::new(RefCell::new(NetLog::default()));
    let mut cache = DnsCache::new(FailingDb, FakeNet(net.clone()), Options::default());
    net.borrow_mut().inbox.push((query(1, "a.test", 1, 1), ReceiveResult::FromClient(client(1))));
    assert_eq!(cache.serve_one_packet(), Err(CacheError::Io("disk".to_string())));
}
