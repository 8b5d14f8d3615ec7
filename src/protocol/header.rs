use crate::error::DnsError;
use crate::protocol::bytepacket::{
    be16, lemma_reader_cursor, lemma_u16_round_trip, lemma_splice_then, lemma_writer_cursor, splice, u16_of, BytePacketReader, BytePacketWriter,
};
use vstd::prelude::*;

verus! {

broadcast use {lemma_reader_cursor, lemma_writer_cursor};

/// The fixed 12-byte header of a DNS message.
#[derive(Debug, Clone, Copy, PartialEq, Eq, Structural)]
pub struct DnsHeader {
    pub id: u16,
    pub qr: bool,
    pub opcode: u8,
    pub aa: bool,
    pub tc: bool,
    pub rd: bool,
    pub ra: bool,
    pub rcode: u8,
    pub qdcount: u16,
    pub ancount: u16,
    pub nscount: u16,
    pub arcount: u16,
}

/// The third header byte: `qr`, four bits of `opcode`, `aa`, `tc`, `rd`.
pub open spec fn flags_hi(h: DnsHeader) -> u8 {
    (if h.qr { 0x80u8 } else { 0u8 }) | ((h.opcode & 0x0Fu8) << 3u8) | (if h.aa {
        0x04u8
    } else {
        0u8
    }) | (if h.tc { 0x02u8 } else { 0u8 }) | (if h.rd { 0x01u8 } else { 0u8 })
}

/// The fourth header byte: `ra`, three zero bits, four bits of `rcode`.
pub open spec fn flags_lo(h: DnsHeader) -> u8 {
    (if h.ra { 0x80u8 } else { 0u8 }) | (h.rcode & 0x0Fu8)
}

/// A header on the wire.
pub open spec fn header_bytes(h: DnsHeader) -> Seq<u8> {
    be16(h.id) + seq![flags_hi(h), flags_lo(h)] + be16(h.qdcount) + be16(h.ancount) + be16(
        h.nscount,
    ) + be16(h.arcount)
}

/// The header read from the twelve bytes at `p` of `b`; the three reserved
/// bits are ignored.
pub open spec fn header_at(b: Seq<u8>, p: int) -> DnsHeader {
    DnsHeader {
        id: u16_of(b[p], b[p + 1]),
        qr: b[p + 2] & 0x80u8 != 0,
        opcode: (b[p + 2] >> 3u8) & 0x0Fu8,
        aa: b[p + 2] & 0x04u8 != 0,
        tc: b[p + 2] & 0x02u8 != 0,
        rd: b[p + 2] & 0x01u8 != 0,
        ra: b[p + 3] & 0x80u8 != 0,
        rcode: b[p + 3] & 0x0Fu8,
        qdcount: u16_of(b[p + 4], b[p + 5]),
        ancount: u16_of(b[p + 6], b[p + 7]),
        nscount: u16_of(b[p + 8], b[p + 9]),
        arcount: u16_of(b[p + 10], b[p + 11]),
    }
}

/// The flag bytes are read back as they were packed.
proof fn lemma_flags_round_trip(h: DnsHeader)
    requires
        h.wf(),
    ensures
        (flags_hi(h) & 0x80u8 != 0) == h.qr,
        ((flags_hi(h) >> 3u8) & 0x0Fu8) == h.opcode,
        (flags_hi(h) & 0x04u8 != 0) == h.aa,
        (flags_hi(h) & 0x02u8 != 0) == h.tc,
        (flags_hi(h) & 0x01u8 != 0) == h.rd,
        (flags_lo(h) & 0x80u8 != 0) == h.ra,
        (flags_lo(h) & 0x0Fu8) == h.rcode,
{
    let q: u8 = if h.qr { 0x80u8 } else { 0u8 };
    let a: u8 = if h.aa { 0x04u8 } else { 0u8 };
    let t: u8 = if h.tc { 0x02u8 } else { 0u8 };
    let d: u8 = if h.rd { 0x01u8 } else { 0u8 };
    let o: u8 = h.opcode;
    let f = q | ((o & 0x0Fu8) << 3u8) | a | t | d;
    assert(f == flags_hi(h));
    assert(((f & 0x80u8) != 0) == (q == 0x80u8) && ((f >> 3u8) & 0x0Fu8) == o && ((f & 0x04u8)
        != 0) == (a == 0x04u8) && ((f & 0x02u8) != 0) == (t == 0x02u8) && ((f & 0x01u8) != 0) == (
    d == 0x01u8)) by (bit_vector)
        requires
            q == 0x80u8 || q == 0u8,
            a == 0x04u8 || a == 0u8,
            t == 0x02u8 || t == 0u8,
            d == 0x01u8 || d == 0u8,
            o < 16u8,
            f == q | ((o & 0x0Fu8) << 3u8) | a | t | d,
    ;
    let y: u8 = if h.ra { 0x80u8 } else { 0u8 };
    let c: u8 = h.rcode;
    let g = y | (c & 0x0Fu8);
    assert(g == flags_lo(h));
    assert(((g & 0x80u8) != 0) == (y == 0x80u8) && (g & 0x0Fu8) == c) by (bit_vector)
        requires
            y == 0x80u8 || y == 0u8,
            c < 16u8,
            g == y | (c & 0x0Fu8),
    ;
}

/// Reading back a written header gives the header itself, bit for bit,
/// whenever its four-bit fields hold four-bit values.
pub proof fn lemma_header_round_trip(h: DnsHeader, buf: Seq<u8>, at: int)
    requires
        h.wf(),
        0 <= at,
        at + 12 <= buf.len(),
    ensures
        header_at(splice(buf, at, header_bytes(h)), at) == h,
{
    let w = header_bytes(h);
    let c = splice(buf, at, w);
    assert(w.len() == 12);
    assert forall|j: int| 0 <= j < 12 implies #[trigger] c[at + j] == w[j] by {}
    assert(c[at] == w[0] && c[at + 1] == w[1] && c[at + 2] == w[2] && c[at + 3] == w[3]);
    assert(c[at + 4] == w[4] && c[at + 5] == w[5] && c[at + 6] == w[6] && c[at + 7] == w[7]);
    assert(c[at + 8] == w[8] && c[at + 9] == w[9] && c[at + 10] == w[10] && c[at + 11] == w[11]);
    lemma_u16_round_trip(h.id);
    lemma_u16_round_trip(h.qdcount);
    lemma_u16_round_trip(h.ancount);
    lemma_u16_round_trip(h.nscount);
    lemma_u16_round_trip(h.arcount);
    lemma_flags_round_trip(h);
}

impl DnsHeader {
    /// The four-bit fields hold four-bit values.
    pub open spec fn wf(&self) -> bool {
        self.opcode < 16 && self.rcode < 16
    }

    /// The header with every field zero or false.
    pub open spec fn new_spec() -> DnsHeader {
        DnsHeader {
            id: 0,
            qr: false,
            opcode: 0,
            aa: false,
            tc: false,
            rd: false,
            ra: false,
            rcode: 0,
            qdcount: 0,
            ancount: 0,
            nscount: 0,
            arcount: 0,
        }
    }

    /// A header with every field zero or false.
    pub fn new() -> (r: DnsHeader)
        ensures
            r == DnsHeader::new_spec(),
            r == (DnsHeader {
                id: 0,
                qr: false,
                opcode: 0,
                aa: false,
                tc: false,
                rd: false,
                ra: false,
                rcode: 0,
                qdcount: 0,
                ancount: 0,
                nscount: 0,
                arcount: 0,
            }),
    {
        DnsHeader {
            id: 0,
            qr: false,
            opcode: 0,
            aa: false,
            tc: false,
            rd: false,
            ra: false,
            rcode: 0,
            qdcount: 0,
            ancount: 0,
            nscount: 0,
            arcount: 0,
        }
    }

    /// Reads the header at the reader's cursor into `self`. When fewer than
    /// twelve bytes are left, neither the header nor the reader changes.
    pub fn read(&mut self, bpacket: &mut BytePacketReader) -> (r: Result<(), DnsError>)
        requires
            old(bpacket).wf(),
        ensures
            final(bpacket).wf(),
            final(bpacket).data() == old(bpacket).data(),
            old(bpacket).cursor() + 12 <= old(bpacket).data().len() ==> r is Ok && *final(self)
                == header_at(old(bpacket).data(), old(bpacket).cursor()) && final(bpacket).cursor()
                == old(bpacket).cursor() + 12,
            old(bpacket).cursor() + 12 > old(bpacket).data().len() ==> r == Err::<(), DnsError>(
                DnsError::EndOfBuffer,
            ) && *final(self) == *old(self) && *final(bpacket) == *old(bpacket),
    {
        if bpacket.remaining() < 12 {
            return Err(DnsError::EndOfBuffer);
        }
        let ghost b = bpacket.data();
        let ghost p = bpacket.cursor();
        let id = match bpacket.read_u16() {
            Ok(v) => v,
            Err(e) => return Err(e),
        };
        let flag1 = match bpacket.read_u8() {
            Ok(v) => v,
            Err(e) => return Err(e),
        };
        let flag2 = match bpacket.read_u8() {
            Ok(v) => v,
            Err(e) => return Err(e),
        };
        let qdcount = match bpacket.read_u16() {
            Ok(v) => v,
            Err(e) => return Err(e),
        };
        let ancount = match bpacket.read_u16() {
            Ok(v) => v,
            Err(e) => return Err(e),
        };
        let nscount = match bpacket.read_u16() {
            Ok(v) => v,
            Err(e) => return Err(e),
        };
        let arcount = match bpacket.read_u16() {
            Ok(v) => v,
            Err(e) => return Err(e),
        };
        self.id = id;
        self.qr = flag1 & 0x80u8 != 0;
        self.opcode = (flag1 >> 3u8) & 0x0Fu8;
        self.aa = flag1 & 0x04u8 != 0;
        self.tc = flag1 & 0x02u8 != 0;
        self.rd = flag1 & 0x01u8 != 0;
        self.ra = flag2 & 0x80u8 != 0;
        self.rcode = flag2 & 0x0Fu8;
        self.qdcount = qdcount;
        self.ancount = ancount;
        self.nscount = nscount;
        self.arcount = arcount;
        Ok(())
    }

    /// Reads a header at the reader's cursor.
    pub fn from_byte_packet(bpacket: &mut BytePacketReader) -> (r: Result<DnsHeader, DnsError>)
        requires
            old(bpacket).wf(),
        ensures
            final(bpacket).wf(),
            final(bpacket).data() == old(bpacket).data(),
            old(bpacket).cursor() + 12 <= old(bpacket).data().len() ==> r == Ok::<
                DnsHeader,
                DnsError,
            >(header_at(old(bpacket).data(), old(bpacket).cursor())) && final(bpacket).cursor()
                == old(bpacket).cursor() + 12,
            old(bpacket).cursor() + 12 > old(bpacket).data().len() ==> r == Err::<
                DnsHeader,
                DnsError,
            >(DnsError::EndOfBuffer) && *final(bpacket) == *old(bpacket),
    {
        let mut header = DnsHeader::new();
        match header.read(bpacket) {
            Ok(()) => Ok(header),
            Err(e) => Err(e),
        }
    }

    /// Writes the header at the writer's cursor. Only the low four bits of
    /// `opcode` and `rcode` are written, and the reserved bits are zero.
    /// Nothing is written when fewer than twelve bytes are left.
    pub fn write(&self, bpacket: &mut BytePacketWriter) -> (r: Result<(), DnsError>)
        requires
            old(bpacket).wf(),
        ensures
            final(bpacket).wf(),
            old(bpacket).cursor() + 12 <= old(bpacket).bytes().len() ==> r is Ok
                && final(bpacket).bytes() == splice(
                old(bpacket).bytes(),
                old(bpacket).cursor(),
                header_bytes(*self),
            ) && final(bpacket).cursor() == old(bpacket).cursor() + 12,
            old(bpacket).cursor() + 12 > old(bpacket).bytes().len() ==> r == Err::<
                (),
                DnsError,
            >(DnsError::EndOfBuffer) && *final(bpacket) == *old(bpacket),
    {
        if bpacket.remaining() < 12 {
            return Err(DnsError::EndOfBuffer);
        }
        let ghost b0 = bpacket.bytes();
        let ghost base = bpacket.cursor();
        let hi: u8 = (if self.qr { 0x80u8 } else { 0u8 }) | ((self.opcode & 0x0Fu8) << 3u8) | (
        if self.aa {
            0x04u8
        } else {
            0u8
        }) | (if self.tc { 0x02u8 } else { 0u8 }) | (if self.rd { 0x01u8 } else { 0u8 });
        let lo: u8 = (if self.ra { 0x80u8 } else { 0u8 }) | (self.rcode & 0x0Fu8);
        let ghost mut acc: Seq<u8> = seq![];
        match bpacket.write_u16(self.id) {
            Ok(()) => {},
            Err(e) => return Err(e),
        }
        proof {
            assert(seq![] + be16(self.id) =~= be16(self.id));
            acc = be16(self.id);
        }
        match bpacket.write_u8(hi) {
            Ok(()) => {},
            Err(e) => return Err(e),
        }
        proof {
            lemma_splice_then(b0, base, acc, seq![hi]);
            acc = acc + seq![hi];
        }
        match bpacket.write_u8(lo) {
            Ok(()) => {},
            Err(e) => return Err(e),
        }
        proof {
            lemma_splice_then(b0, base, acc, seq![lo]);
            acc = acc + seq![lo];
        }
        match bpacket.write_u16(self.qdcount) {
            Ok(()) => {},
            Err(e) => return Err(e),
        }
        proof {
            lemma_splice_then(b0, base, acc, be16(self.qdcount));
            acc = acc + be16(self.qdcount);
        }
        match bpacket.write_u16(self.ancount) {
            Ok(()) => {},
            Err(e) => return Err(e),
        }
        proof {
            lemma_splice_then(b0, base, acc, be16(self.ancount));
            acc = acc + be16(self.ancount);
        }
        match bpacket.write_u16(self.nscount) {
            Ok(()) => {},
            Err(e) => return Err(e),
        }
        proof {
            lemma_splice_then(b0, base, acc, be16(self.nscount));
            acc = acc + be16(self.nscount);
        }
        match bpacket.write_u16(self.arcount) {
            Ok(()) => {},
            Err(e) => return Err(e),
        }
        proof {
            lemma_splice_then(b0, base, acc, be16(self.arcount));
            acc = acc + be16(self.arcount);
            assert(acc =~= header_bytes(*self));
        }
        Ok(())
    }
}

} // verus!
