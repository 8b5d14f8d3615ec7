use dnsrelay::config::Config;
use dnsrelay::error::DnsError;
use dnsrelay::protocol::packet::DnsPacket;
use dnsrelay::protocol::question::DnsQuestion;
use dnsrelay::resolver::{build_reply, decide, handle_query, is_blocked, Resolution, RuleTable};

fn query_bytes(id: u16, name: &str) -> Vec<u8> {
    let mut p = DnsPacket::new();
    p.header.id = id;
    p.header.rd = true;
    p.header.qdcount = 1;
    p.questions.push(DnsQuestion { qname: name.to_string(), qtype: 1 });
    let mut buf = [0u8; 512];
    let n = p.write(&mut buf).unwrap();
    buf[..n].to_vec()
}

fn rules() -> RuleTable {
    let mut t = RuleTable::new();
    t.insert("blocked.test".to_string(), [0, 0, 0, 0]);
    t.insert("local.test".to_string(), [10, 0, 0, 5]);
    t
}

#[test]
fn blocked_name_gets_name_error() {
    let q = query_bytes(0x0101, "blocked.test");
    let mut out = [0u8; 512];
    let (mode, n) = handle_query(&q, &rules(), &mut out).unwrap();
    assert_eq!(mode, Resolution::Intercept);
    assert_eq!(n, q.len());
    let resp = &out[..n];
    assert_eq!(&resp[0..2], &[0x01, 0x01]);
    assert_eq!(resp[2] & 0x80, 0x80);
    assert_eq!(resp[2] & 0x04, 0);
    assert_eq!(resp[3] & 0x0F, 3);
    assert_eq!(resp[3] & 0x80, 0x80);
    assert_eq!(&resp[6..8], &[0, 0]);
    assert_eq!(&resp[12..], &q[12..]);
}

#[test]
fn local_name_gets_its_address() {
    let q = query_bytes(0x0202, "local.test");
    let mut out = [0u8; 512];
    let (mode, n) = handle_query(&q, &rules(), &mut out).unwrap();
    assert_eq!(mode, Resolution::Local);
    let resp = &out[..n];
    assert_eq!(resp[3] & 0x0F, 0);
    assert_eq!(&resp[4..6], &[0, 1]);
    assert_eq!(&resp[6..8], &[0, 1]);
    assert_eq!(&resp[12..q.len()], &q[12..]);
    let answer = &resp[q.len()..];
    assert_eq!(answer.len(), 12 + 14);
    assert_eq!(&answer[..12], &q[12..24]);
    assert_eq!(&answer[12..], &[0, 1, 0, 1, 0, 0, 0, 100, 0, 4, 10, 0, 0, 5]);
}

#[test]
fn unknown_name_is_relayed() {
    let q = query_bytes(3, "unknown.test");
    let mut out = [9u8; 512];
    assert_eq!(handle_query(&q, &rules(), &mut out), Ok((Resolution::Relay, 0)));
    assert_eq!(out, [9u8; 512]);
}

#[test]
fn malformed_query_is_refused() {
    let mut out = [9u8; 512];
    assert_eq!(handle_query(&[0u8; 5], &rules(), &mut out), Err(DnsError::EndOfBuffer));
    assert_eq!(handle_query(&[0u8; 12], &rules(), &mut out), Err(DnsError::NoQuestion));
    assert_eq!(out, [9u8; 512]);
}

#[test]
fn reply_too_large_for_buffer() {
    let q = query_bytes(4, "local.test");
    let mut out = [9u8; 40];
    assert_eq!(handle_query(&q, &rules(), &mut out), Err(DnsError::EndOfBuffer));
    assert_eq!(out, [9u8; 40]);
}

#[test]
fn lookup_is_exact_and_last_rule_wins() {
    let mut t = RuleTable::new();
    t.insert("a.test".to_string(), [1, 1, 1, 1]);
    t.insert("a.test".to_string(), [2, 2, 2, 2]);
    assert_eq!(t.lookup(&"a.test".to_string()), Some([2, 2, 2, 2]));
    assert_eq!(t.lookup(&"A.test".to_string()), None);
    assert_eq!(t.lookup(&"test".to_string()), None);
    assert_eq!(RuleTable::new().lookup(&"a.test".to_string()), None);
}

#[test]
fn decide_modes() {
    assert_eq!(decide(None), Resolution::Relay);
    assert_eq!(decide(Some([0, 0, 0, 0])), Resolution::Intercept);
    assert_eq!(decide(Some([127, 0, 0, 1])), Resolution::Local);
    assert!(is_blocked([0, 0, 0, 0]));
    assert!(!is_blocked([0, 0, 0, 1]));
}

#[test]
fn build_reply_sets_flags_and_counts() {
    let q = query_bytes(9, "local.test");
    let mut req = DnsPacket::from(&q).unwrap();
    req.header.arcount = 1;
    req.header.nscount = 2;
    let (h, answers) = build_reply(&req.header, &req.questions[0].qname, [10, 0, 0, 5]);
    assert!(h.qr && h.ra && !h.aa && !h.tc && h.rd);
    assert_eq!(h.id, 9);
    assert_eq!(h.rcode, 0);
    assert_eq!(h.ancount, 1);
    assert_eq!(h.nscount, 0);
    assert_eq!(h.arcount, 0);
    assert_eq!(answers.len(), 1);
    match &answers[0] {
        dnsrelay::protocol::record::DnsRecord::A { name, addr, ttl } => {
            assert_eq!(name, "local.test");
            assert_eq!(*addr, [10, 0, 0, 5]);
            assert_eq!(*ttl, 100);
        }
    }
    let (h, answers) = build_reply(&req.header, &req.questions[0].qname, [0, 0, 0, 0]);
    assert_eq!(h.rcode, 3);
    assert_eq!(h.ancount, 0);
    assert!(answers.is_empty());
}

#[test]
fn root_name_query_is_echoed_exactly() {
    let q = [0x12u8, 0x34, 0x01, 0, 0, 1, 0, 0, 0, 0, 0, 0, 0, 0, 1, 0, 1];
    let mut t = RuleTable::new();
    t.insert(String::new(), [0, 0, 0, 0]);
    let mut out = [0u8; 512];
    let (mode, n) = handle_query(&q, &t, &mut out).unwrap();
    assert_eq!(mode, Resolution::Intercept);
    assert_eq!(n, 17);
    assert_eq!(&out[12..17], &q[12..17]);
    assert_eq!(&out[..2], &[0x12, 0x34]);
    assert_eq!(out[3] & 0x0F, 3);
}

#[test]
fn label_holding_a_dot_is_echoed_exactly() {
    let q = [0u8, 5, 0x01, 0, 0, 1, 0, 0, 0, 0, 0, 0, 3, b'a', b'.', b'b', 0, 0, 1, 0, 1];
    let mut t = RuleTable::new();
    t.insert("a.b".to_string(), [0, 0, 0, 0]);
    let mut out = [0u8; 512];
    let (mode, n) = handle_query(&q, &t, &mut out).unwrap();
    assert_eq!(mode, Resolution::Intercept);
    assert_eq!(n, q.len());
    assert_eq!(&out[12..n], &q[12..]);
}

#[test]
fn only_the_question_section_is_echoed() {
    let mut q = query_bytes(6, "local.test");
    q.extend_from_slice(&[0xAA, 0xBB]);
    let mut out = [0u8; 512];
    let (mode, n) = handle_query(&q, &rules(), &mut out).unwrap();
    assert_eq!(mode, Resolution::Local);
    assert_eq!(n, q.len() - 2 + 26);
    assert_eq!(&out[12..q.len() - 2], &q[12..q.len() - 2]);
}

#[test]
fn default_config() {
    let c = Config::default();
    assert_eq!(c.listen_addr, "127.0.0.1:53");
    assert_eq!(c.remote_addr, "114.114.114.114:53");
    assert_eq!(c.rule_file, "rules/config.txt");
}
