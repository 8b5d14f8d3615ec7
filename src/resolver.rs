use crate::error::DnsError;
use crate::protocol::bytepacket::{lemma_splice_then, splice, BytePacketWriter};
use crate::protocol::header::{header_bytes, DnsHeader};
use crate::protocol::packet::{
    copy_into, lemma_questions_at_len, query_end, query_of, questions_view, records_fit,
    records_ok, records_view, records_wire, write_records, DnsPacket,
};
use crate::protocol::record::DnsRecord;
use vstd::prelude::*;
use vstd::slice::slice_to_vec;

verus! {

/// How a query is resolved.
#[derive(Debug, Clone, Copy, PartialEq, Eq, Structural)]
pub enum Resolution {
    /// The name is blocked: the reply says it does not exist.
    Intercept,
    /// The name has a local address: the reply gives it.
    Local,
    /// The name has no rule: the query goes to the upstream resolver.
    Relay,
}

/// Time to live of a local answer, in seconds.
pub const LOCAL_TTL: u32 = 100;

/// Response code for a name that does not exist.
pub const NAME_ERROR: u8 = 3;

/// The address 0.0.0.0, which marks a blocked name.
pub open spec fn is_block(a: [u8; 4]) -> bool {
    a@[0] == 0 && a@[1] == 0 && a@[2] == 0 && a@[3] == 0
}

/// The mapping that a list of rules makes: a later rule for a name replaces
/// an earlier one.
pub open spec fn table_map(es: Seq<(Seq<char>, [u8; 4])>) -> Map<Seq<char>, [u8; 4]>
    decreases es.len(),
{
    if es.len() == 0 {
        Map::empty()
    } else {
        table_map(es.drop_last()).insert(es.last().0, es.last().1)
    }
}

/// How a query whose name found `a` in the rules is resolved, or `None`
/// when it found nothing.
pub open spec fn mode_of(found: Option<[u8; 4]>) -> Resolution {
    match found {
        None => Resolution::Relay,
        Some(a) => if is_block(a) {
            Resolution::Intercept
        } else {
            Resolution::Local
        },
    }
}

/// The header of the reply to a query with header `h` whose name found `a`:
/// a response, not authoritative, not truncated, recursion available, with
/// one answer for a local address and a name error for a blocked one.
pub open spec fn reply_header(h: DnsHeader, a: [u8; 4]) -> DnsHeader {
    DnsHeader {
        id: h.id,
        qr: true,
        opcode: h.opcode,
        aa: false,
        tc: false,
        rd: h.rd,
        ra: true,
        rcode: if is_block(a) {
            NAME_ERROR
        } else {
            0
        },
        qdcount: h.qdcount,
        ancount: if is_block(a) {
            0
        } else {
            1
        },
        nscount: 0,
        arcount: 0,
    }
}

/// The answers of the reply for the name `n` that found `a`.
pub open spec fn reply_answers(n: Seq<char>, a: [u8; 4]) -> Seq<(Seq<char>, [u8; 4], u32)> {
    if is_block(a) {
        seq![]
    } else {
        seq![(n, a, LOCAL_TTL)]
    }
}

/// The reply on the wire to a query with header `h` whose question section
/// is the bytes `raw` and whose first name `n` found `a`: the reply header,
/// the question bytes exactly as the client sent them, and the answers.
pub open spec fn reply_wire(h: DnsHeader, raw: Seq<u8>, n: Seq<char>, a: [u8; 4]) -> Seq<u8> {
    header_bytes(reply_header(h, a)) + raw + records_wire(reply_answers(n, a))
}

/// The names of the answers for `n` can be written.
pub open spec fn reply_ok(n: Seq<char>, a: [u8; 4]) -> bool {
    records_ok(reply_answers(n, a))
}

/// A static mapping from domain name to IPv4 address.
///
/// The rules are kept as a vector of pairs, read from the back so that a
/// later rule for a name replaces an earlier one. Over a vector the lookup is
/// proved exact; vstd specifies no hash map keyed by strings in a way that
/// would give the same, and rule tables are small.
pub struct RuleTable {
    rules: Vec<(String, [u8; 4])>,
}

impl View for RuleTable {
    type V = Map<Seq<char>, [u8; 4]>;

    closed spec fn view(&self) -> Map<Seq<char>, [u8; 4]> {
        table_map(self.rules@.map_values(|e: (String, [u8; 4])| (e.0@, e.1)))
    }
}

impl RuleTable {
    /// A table with no rules.
    pub fn new() -> (r: RuleTable)
        ensures
            r@ == Map::<Seq<char>, [u8; 4]>::empty(),
    {
        let r = RuleTable { rules: Vec::new() };
        assert(r.rules@.map_values(|e: (String, [u8; 4])| (e.0@, e.1)) =~= seq![]);
        r
    }

    /// Maps `name` to `addr`, replacing what it was mapped to.
    pub fn insert(&mut self, name: String, addr: [u8; 4])
        ensures
            final(self)@ == old(self)@.insert(name@, addr),
    {
        let ghost before = self.rules@;
        self.rules.push((name, addr));
        assert(self.rules@.map_values(|e: (String, [u8; 4])| (e.0@, e.1)).drop_last()
            =~= before.map_values(|e: (String, [u8; 4])| (e.0@, e.1)));
    }

    /// The address that `name` maps to, matched exactly.
    pub fn lookup(&self, name: &String) -> (r: Option<[u8; 4]>)
        ensures
            r == if self@.contains_key(name@) {
                Some(self@[name@])
            } else {
                None::<[u8; 4]>
            },
    {
        let ghost v = self.rules@.map_values(|e: (String, [u8; 4])| (e.0@, e.1));
        let mut found: Option<[u8; 4]> = None;
        let mut i: usize = 0;
        while i < self.rules.len()
            invariant
                i <= self.rules@.len(),
                v == self.rules@.map_values(|e: (String, [u8; 4])| (e.0@, e.1)),
                found == if table_map(v.take(i as int)).contains_key(name@) {
                    Some(table_map(v.take(i as int))[name@])
                } else {
                    None::<[u8; 4]>
                },
            decreases self.rules.len() - i,
        {
            assert(v.take(i + 1).drop_last() =~= v.take(i as int));
            if self.rules[i].0 == *name {
                found = Some(self.rules[i].1);
            }
            i = i + 1;
        }
        assert(v.take(i as int) =~= v);
        found
    }
}

/// Whether `a` is 0.0.0.0, the mark of a blocked name.
pub fn is_blocked(a: [u8; 4]) -> (r: bool)
    ensures
        r == is_block(a),
{
    a[0] == 0 && a[1] == 0 && a[2] == 0 && a[3] == 0
}

/// How a query whose name found `found` in the rules is resolved.
pub fn decide(found: Option<[u8; 4]>) -> (r: Resolution)
    ensures
        r == mode_of(found),
{
    match found {
        None => Resolution::Relay,
        Some(a) => if is_blocked(a) {
            Resolution::Intercept
        } else {
            Resolution::Local
        },
    }
}

/// The header and answers of the reply to a query with header `h` whose
/// first name `qname` found `a`: the reply flags and counts, and for a
/// local address one answer that gives it.
pub fn build_reply(h: &DnsHeader, qname: &String, a: [u8; 4]) -> (r: (DnsHeader, Vec<DnsRecord>))
    ensures
        r.0 == reply_header(*h, a),
        records_view(r.1@) == reply_answers(qname@, a),
{
    let mut header = *h;
    header.qr = true;
    header.aa = false;
    header.tc = false;
    header.ra = true;
    header.nscount = 0;
    header.arcount = 0;
    let mut answers: Vec<DnsRecord> = Vec::new();
    if is_blocked(a) {
        header.rcode = NAME_ERROR;
        header.ancount = 0;
    } else {
        header.rcode = 0;
        header.ancount = 1;
        answers.push(DnsRecord::A { name: qname.clone(), addr: a, ttl: LOCAL_TTL });
    }
    assert(records_view(answers@) =~= reply_answers(qname@, a));
    (header, answers)
}

/// Handles one query held in `request`: decodes it, looks its first name up
/// in `table`, and for a blocked or local name writes the reply at the start
/// of `out`, with the question section copied byte for byte from the
/// request. Gives how the query was resolved and how many bytes of `out`
/// the reply takes; a query to relay writes nothing, and `out` is left as it
/// was on every error.
pub fn handle_query(request: &[u8], table: &RuleTable, out: &mut [u8]) -> (r: Result<
    (Resolution, usize),
    DnsError,
>)
    ensures
        match query_of(request@) {
            Err(x) => r == Err::<(Resolution, usize), DnsError>(x) && final(out)@ == old(out)@,
            Ok((h, qs)) => if !table@.contains_key(qs[0].0) {
                r == Ok::<(Resolution, usize), DnsError>((Resolution::Relay, 0usize))
                    && final(out)@ == old(out)@
            } else if !reply_ok(qs[0].0, table@[qs[0].0]) {
                r == Err::<(Resolution, usize), DnsError>(DnsError::LabelTooLong) && final(out)@
                    == old(out)@
            } else if reply_wire(
                h,
                request@.subrange(12, query_end(request@)),
                qs[0].0,
                table@[qs[0].0],
            ).len() > old(out)@.len() {
                r == Err::<(Resolution, usize), DnsError>(DnsError::EndOfBuffer) && final(out)@
                    == old(out)@
            } else {
                &&& r == Ok::<(Resolution, usize), DnsError>(
                    (
                        mode_of(Some(table@[qs[0].0])),
                        reply_wire(
                            h,
                            request@.subrange(12, query_end(request@)),
                            qs[0].0,
                            table@[qs[0].0],
                        ).len() as usize,
                    ),
                )
                &&& final(out)@ == splice(
                    old(out)@,
                    0,
                    reply_wire(
                        h,
                        request@.subrange(12, query_end(request@)),
                        qs[0].0,
                        table@[qs[0].0],
                    ),
                )
                &&& final(out)@.subrange(12, query_end(request@)) == request@.subrange(
                    12,
                    query_end(request@),
                )
            },
        },
{
    let (packet, end) = match DnsPacket::decode_query(request) {
        Ok(p) => p,
        Err(e) => return Err(e),
    };
    proof {
        lemma_questions_at_len(request@, 12, packet.header.qdcount as nat);
        assert(questions_view(packet.questions@)[0] == packet.questions@[0]@);
    }
    let found = table.lookup(&packet.questions[0].qname);
    let mode = decide(found);
    let a = match found {
        None => return Ok((Resolution::Relay, 0)),
        Some(a) => a,
    };
    let (header, answers) = build_reply(&packet.header, &packet.questions[0].qname, a);
    if !records_fit(&answers) {
        return Err(DnsError::LabelTooLong);
    }
    let raw = vstd::slice::slice_subrange(request, 12, end);
    let ghost b0 = out@;
    let ghost hb = header_bytes(header);
    let ghost an = records_wire(records_view(answers@));
    let mut bpacket = BytePacketWriter::new(slice_to_vec(out));
    match header.write(&mut bpacket) {
        Ok(()) => {},
        Err(e) => return Err(e),
    }
    match bpacket.write_bytes(raw) {
        Ok(()) => {},
        Err(e) => return Err(e),
    }
    proof {
        lemma_splice_then(b0, 0, hb, raw@);
    }
    match write_records(&answers, &mut bpacket) {
        Ok(()) => {},
        Err(e) => return Err(e),
    }
    proof {
        lemma_splice_then(b0, 0, hb + raw@, an);
        let w = hb + raw@ + an;
        let c = splice(b0, 0, w);
        assert(c.subrange(12, end as int) =~= raw@);
    }
    let len = bpacket.pos();
    let bytes = bpacket.into_bytes();
    copy_into(out, &bytes);
    Ok((mode, len))
}

} // verus!
