use crate::error::DnsError;
use crate::protocol::bytepacket::{
    be16, labels_fit, labels_of, lemma_reader_cursor, lemma_splice_then, lemma_wire_len,
    lemma_writer_cursor, name_fits, name_text_at, name_wire, splice, u16_of, BytePacketReader,
    BytePacketWriter,
};
use vstd::prelude::*;
use vstd::string::StringExecFns;
use vstd::utf8::encode_utf8;

verus! {

broadcast use {lemma_reader_cursor, lemma_writer_cursor};

/// One question of a query: a name and a query type. Its class is always
/// the Internet class, 1.
#[derive(Debug)]
pub struct DnsQuestion {
    pub qname: String,
    pub qtype: u16,
}

impl View for DnsQuestion {
    type V = (Seq<char>, u16);

    open spec fn view(&self) -> (Seq<char>, u16) {
        (self.qname@, self.qtype)
    }
}

/// Every label of the name `t` fits in a length byte.
pub open spec fn name_ok(t: Seq<char>) -> bool {
    labels_fit(labels_of(encode_utf8(t)))
}

/// The question read at `p` of `b` and the position after it, or the error
/// that stops the read. The class is read and dropped.
pub open spec fn question_at(b: Seq<u8>, p: int) -> Result<((Seq<char>, u16), int), DnsError> {
    match name_text_at(b, p) {
        Ok((t, e)) => if e + 4 > b.len() {
            Err(DnsError::EndOfBuffer)
        } else {
            Ok(((t, u16_of(b[e], b[e + 1])), e + 4))
        },
        Err(x) => Err(x),
    }
}

/// A question on the wire.
pub open spec fn question_wire(q: (Seq<char>, u16)) -> Seq<u8> {
    name_wire(encode_utf8(q.0)) + be16(q.1) + be16(1)
}

/// The wire form of a question is its name's bytes and six more.
pub proof fn lemma_question_wire_len(q: (Seq<char>, u16))
    ensures
        question_wire(q).len() == encode_utf8(q.0).len() + 6,
{
    lemma_wire_len(encode_utf8(q.0), 0, 0);
}

impl DnsQuestion {
    /// A question with an empty name and type zero.
    pub fn new() -> (r: DnsQuestion)
        ensures
            r@ == (Seq::<char>::empty(), 0u16),
    {
        DnsQuestion { qname: String::new(), qtype: 0 }
    }

    /// Reads the question at the reader's cursor into `self`; `self` keeps
    /// its value when the read fails.
    pub fn read(&mut self, bpacket: &mut BytePacketReader) -> (r: Result<(), DnsError>)
        requires
            old(bpacket).wf(),
        ensures
            final(bpacket).wf(),
            final(bpacket).data() == old(bpacket).data(),
            match question_at(old(bpacket).data(), old(bpacket).cursor()) {
                Ok((q, e)) => r is Ok && final(self)@ == q && final(bpacket).cursor() == e,
                Err(x) => r == Err::<(), DnsError>(x) && final(self)@ == old(self)@,
            },
    {
        let qname = match bpacket.read_name() {
            Ok(v) => v,
            Err(e) => return Err(e),
        };
        if bpacket.remaining() < 4 {
            return Err(DnsError::EndOfBuffer);
        }
        let qtype = match bpacket.read_u16() {
            Ok(v) => v,
            Err(e) => return Err(e),
        };
        match bpacket.read_u16() {
            Ok(_) => {},
            Err(e) => return Err(e),
        }
        self.qname = qname;
        self.qtype = qtype;
        Ok(())
    }

    /// Reads a question at the reader's cursor.
    pub fn from_byte_packet(bpacket: &mut BytePacketReader) -> (r: Result<DnsQuestion, DnsError>)
        requires
            old(bpacket).wf(),
        ensures
            final(bpacket).wf(),
            final(bpacket).data() == old(bpacket).data(),
            match question_at(old(bpacket).data(), old(bpacket).cursor()) {
                Ok((q, e)) => r is Ok && r->Ok_0@ == q && final(bpacket).cursor() == e,
                Err(x) => r is Err && r->Err_0 == x,
            },
    {
        let mut question = DnsQuestion::new();
        match question.read(bpacket) {
            Ok(()) => Ok(question),
            Err(e) => Err(e),
        }
    }

    /// Writes the question at the writer's cursor, with class 1. Nothing is
    /// written when a label of the name is too long or the question does not
    /// fit.
    pub fn write(&self, bpacket: &mut BytePacketWriter) -> (r: Result<(), DnsError>)
        requires
            old(bpacket).wf(),
        ensures
            final(bpacket).wf(),
            !name_ok(self.qname@) ==> r == Err::<(), DnsError>(DnsError::LabelTooLong) && *final(bpacket) == *old(bpacket),
            name_ok(self.qname@) && old(bpacket).cursor() + question_wire(self@).len() > old(bpacket).bytes().len() ==> r == Err::<(), DnsError>(DnsError::EndOfBuffer) && *final(bpacket)
                == *old(bpacket),
            name_ok(self.qname@) && old(bpacket).cursor() + question_wire(self@).len() <= old(bpacket).bytes().len() ==> r is Ok && final(bpacket).bytes() == splice(
                old(bpacket).bytes(),
                old(bpacket).cursor(),
                question_wire(self@),
            ) && final(bpacket).cursor() == old(bpacket).cursor() + question_wire(self@).len(),
    {
        let name = self.qname.as_str();
        let b = name.as_bytes();
        if !name_fits(b) {
            return Err(DnsError::LabelTooLong);
        }
        proof {
            lemma_question_wire_len(self@);
            lemma_wire_len(b@, 0, 0);
        }
        let room = bpacket.remaining();
        if room < 6 || b.len() > room - 6 {
            return Err(DnsError::EndOfBuffer);
        }
        let ghost b0 = bpacket.bytes();
        let ghost base = bpacket.cursor();
        let ghost nw = name_wire(b@);
        match bpacket.write_name(name) {
            Ok(()) => {},
            Err(e) => return Err(e),
        }
        match bpacket.write_u16(self.qtype) {
            Ok(()) => {},
            Err(e) => return Err(e),
        }
        proof {
            lemma_splice_then(b0, base, nw, be16(self.qtype));
        }
        match bpacket.write_u16(1) {
            Ok(()) => {},
            Err(e) => return Err(e),
        }
        proof {
            lemma_splice_then(b0, base, nw + be16(self.qtype), be16(1));
        }
        Ok(())
    }
}

} // verus!
