use crate::error::DnsError;
use crate::protocol::bytepacket::{
    be16, be32, lemma_splice_then, lemma_wire_len, lemma_writer_cursor, name_fits, name_wire,
    splice, BytePacketWriter,
};
use crate::protocol::question::name_ok;
use vstd::prelude::*;
use vstd::utf8::encode_utf8;

verus! {

broadcast use lemma_writer_cursor;

/// A resource record. Only address records are modelled.
#[derive(Debug)]
pub enum DnsRecord {
    /// An IPv4 address for `name`, valid for `ttl` seconds.
    A { name: String, addr: [u8; 4], ttl: u32 },
}

impl View for DnsRecord {
    type V = (Seq<char>, [u8; 4], u32);

    /// Name, address and time to live.
    open spec fn view(&self) -> (Seq<char>, [u8; 4], u32) {
        match self {
            DnsRecord::A { name, addr, ttl } => (name@, *addr, *ttl),
        }
    }
}

/// An address record on the wire: name, type 1, class 1, time to live, data
/// length 4, and the four address octets.
pub open spec fn record_wire(r: (Seq<char>, [u8; 4], u32)) -> Seq<u8> {
    name_wire(encode_utf8(r.0)) + be16(1) + be16(1) + be32(r.2) + be16(4) + r.1@
}

/// The wire form of a record is its name's bytes and sixteen more.
pub proof fn lemma_record_wire_len(r: (Seq<char>, [u8; 4], u32))
    ensures
        record_wire(r).len() == encode_utf8(r.0).len() + 16,
{
    lemma_wire_len(encode_utf8(r.0), 0, 0);
}

impl DnsRecord {
    /// Writes the record at the writer's cursor. Nothing is written when a
    /// label of the name is too long or the record does not fit.
    pub fn write(&self, bpacket: &mut BytePacketWriter) -> (r: Result<(), DnsError>)
        requires
            old(bpacket).wf(),
        ensures
            final(bpacket).wf(),
            !name_ok(self@.0) ==> r == Err::<(), DnsError>(DnsError::LabelTooLong)
                && *final(bpacket) == *old(bpacket),
            name_ok(self@.0) && old(bpacket).cursor() + record_wire(self@).len() > old(bpacket).bytes().len()
                ==> r == Err::<(), DnsError>(DnsError::EndOfBuffer) && *final(bpacket) == *old(bpacket),
            name_ok(self@.0) && old(bpacket).cursor() + record_wire(self@).len() <= old(bpacket).bytes().len()
                ==> r is Ok && final(bpacket).bytes() == splice(
                old(bpacket).bytes(),
                old(bpacket).cursor(),
                record_wire(self@),
            ) && final(bpacket).cursor() == old(bpacket).cursor() + record_wire(self@).len(),
    {
        match self {
            DnsRecord::A { name, addr, ttl } => {
                let text = name.as_str();
                let b = text.as_bytes();
                if !name_fits(b) {
                    return Err(DnsError::LabelTooLong);
                }
                proof {
                    lemma_record_wire_len(self@);
                    lemma_wire_len(b@, 0, 0);
                }
                let room = bpacket.remaining();
                if room < 16 || b.len() > room - 16 {
                    return Err(DnsError::EndOfBuffer);
                }
                let ghost b0 = bpacket.bytes();
                let ghost base = bpacket.cursor();
                let ghost mut acc = name_wire(b@);
                match bpacket.write_name(text) {
                    Ok(()) => {},
                    Err(e) => return Err(e),
                }
                match bpacket.write_u16(1) {
                    Ok(()) => {},
                    Err(e) => return Err(e),
                }
                proof {
                    lemma_splice_then(b0, base, acc, be16(1));
                    acc = acc + be16(1);
                }
                match bpacket.write_u16(1) {
                    Ok(()) => {},
                    Err(e) => return Err(e),
                }
                proof {
                    lemma_splice_then(b0, base, acc, be16(1));
                    acc = acc + be16(1);
                }
                match bpacket.write_u32(*ttl) {
                    Ok(()) => {},
                    Err(e) => return Err(e),
                }
                proof {
                    lemma_splice_then(b0, base, acc, be32(*ttl));
                    acc = acc + be32(*ttl);
                }
                match bpacket.write_u16(4) {
                    Ok(()) => {},
                    Err(e) => return Err(e),
                }
                proof {
                    lemma_splice_then(b0, base, acc, be16(4));
                    acc = acc + be16(4);
                }
                let mut k: usize = 0;
                while k < 4
                    invariant
                        0 <= k <= 4,
                        bpacket.wf(),
                        0 <= base,
                        base + acc.len() + 4 - k <= b0.len(),
                        acc == name_wire(b@) + be16(1) + be16(1) + be32(*ttl) + be16(4) + addr@.subrange(0, k as int),
                        bpacket.bytes() == splice(b0, base, acc),
                        bpacket.cursor() == base + acc.len(),
                        b0.len() == bpacket.bytes().len(),
                    decreases 4 - k,
                {
                    match bpacket.write_u8(addr[k]) {
                        Ok(()) => {},
                        Err(e) => return Err(e),
                    }
                    proof {
                        lemma_splice_then(b0, base, acc, seq![addr@[k as int]]);
                        assert(addr@.subrange(0, k + 1) =~= addr@.subrange(0, k as int).push(addr@[k as int]));
                        acc = acc + seq![addr@[k as int]];
                    }
                    k = k + 1;
                }
                assert(addr@.subrange(0, 4) =~= addr@);
                Ok(())
            },
        }
    }
}

} // verus!
