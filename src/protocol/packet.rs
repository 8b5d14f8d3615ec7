use crate::error::DnsError;
use crate::protocol::bytepacket::{
    lemma_name_at_end, lemma_reader_cursor, lemma_splice_then, lemma_writer_cursor, name_fits, splice,
    BytePacketReader, BytePacketWriter,
};
use crate::protocol::header::{header_at, header_bytes, DnsHeader};
use crate::protocol::question::{name_ok, question_at, question_wire, DnsQuestion};
use crate::protocol::record::{record_wire, DnsRecord};
use vstd::prelude::*;
use vstd::slice::slice_to_vec;

verus! {

broadcast use {lemma_reader_cursor, lemma_writer_cursor};

/// The `n` questions read one after another from `p` of `b`, and the
/// position after them, or the error that stops the reads.
pub open spec fn questions_at(b: Seq<u8>, p: int, n: nat) -> Result<
    (Seq<(Seq<char>, u16)>, int),
    DnsError,
>
    decreases n,
{
    if n == 0 {
        Ok((seq![], p))
    } else {
        match question_at(b, p) {
            Ok((q, e)) => match questions_at(b, e, (n - 1) as nat) {
                Ok((qs, e2)) => Ok((seq![q] + qs, e2)),
                Err(x) => Err(x),
            },
            Err(x) => Err(x),
        }
    }
}

/// Reading `n` questions gives `n` of them.
pub proof fn lemma_questions_at_len(b: Seq<u8>, p: int, n: nat)
    ensures
        questions_at(b, p, n) is Ok ==> questions_at(b, p, n)->Ok_0.0.len() == n,
    decreases n,
{
    if n > 0 {
        match question_at(b, p) {
            Ok((q, e)) => lemma_questions_at_len(b, e, (n - 1) as nat),
            Err(x) => {},
        }
    }
}

/// The header and questions of the query held in `b`, or why it cannot be
/// read: it is cut short, a label is not text, or it asks no question.
pub open spec fn query_of(b: Seq<u8>) -> Result<(DnsHeader, Seq<(Seq<char>, u16)>), DnsError> {
    if b.len() < 12 {
        Err(DnsError::EndOfBuffer)
    } else if header_at(b, 0).qdcount == 0 {
        Err(DnsError::NoQuestion)
    } else {
        match questions_at(b, 12, header_at(b, 0).qdcount as nat) {
            Ok((qs, _)) => Ok((header_at(b, 0), qs)),
            Err(x) => Err(x),
        }
    }
}

/// The position right after the questions of the query held in `b`.
pub open spec fn query_end(b: Seq<u8>) -> int {
    match questions_at(b, 12, header_at(b, 0).qdcount as nat) {
        Ok((_, e)) => e,
        Err(_) => 12,
    }
}

/// Questions as name and type.
pub open spec fn questions_view(qs: Seq<DnsQuestion>) -> Seq<(Seq<char>, u16)> {
    qs.map_values(|q: DnsQuestion| q@)
}

/// Records as name, address and time to live.
pub open spec fn records_view(rs: Seq<DnsRecord>) -> Seq<(Seq<char>, [u8; 4], u32)> {
    rs.map_values(|r: DnsRecord| r@)
}

/// Questions on the wire, one after another.
pub open spec fn questions_wire(qs: Seq<(Seq<char>, u16)>) -> Seq<u8>
    decreases qs.len(),
{
    if qs.len() == 0 {
        seq![]
    } else {
        questions_wire(qs.drop_last()) + question_wire(qs.last())
    }
}

/// Records on the wire, one after another.
pub open spec fn records_wire(rs: Seq<(Seq<char>, [u8; 4], u32)>) -> Seq<u8>
    decreases rs.len(),
{
    if rs.len() == 0 {
        seq![]
    } else {
        records_wire(rs.drop_last()) + record_wire(rs.last())
    }
}

/// Every question's name can be written.
pub open spec fn questions_ok(qs: Seq<(Seq<char>, u16)>) -> bool {
    forall|k: int| 0 <= k < qs.len() ==> name_ok(#[trigger] qs[k].0)
}

/// Every record's name can be written.
pub open spec fn records_ok(rs: Seq<(Seq<char>, [u8; 4], u32)>) -> bool {
    forall|k: int| 0 <= k < rs.len() ==> name_ok(#[trigger] rs[k].0)
}

/// A prefix of the questions is no longer on the wire than all of them.
pub proof fn lemma_questions_prefix(qs: Seq<(Seq<char>, u16)>, j: int)
    requires
        0 <= j <= qs.len(),
    ensures
        questions_wire(qs.take(j)).len() <= questions_wire(qs).len(),
    decreases qs.len() - j,
{
    if j < qs.len() {
        lemma_questions_prefix(qs, j + 1);
        assert(qs.take(j + 1).drop_last() =~= qs.take(j));
    } else {
        assert(qs.take(j) =~= qs);
    }
}

/// A prefix of the records is no longer on the wire than all of them.
pub proof fn lemma_records_prefix(rs: Seq<(Seq<char>, [u8; 4], u32)>, j: int)
    requires
        0 <= j <= rs.len(),
    ensures
        records_wire(rs.take(j)).len() <= records_wire(rs).len(),
    decreases rs.len() - j,
{
    if j < rs.len() {
        lemma_records_prefix(rs, j + 1);
        assert(rs.take(j + 1).drop_last() =~= rs.take(j));
    } else {
        assert(rs.take(j) =~= rs);
    }
}

/// Whether every question's name can be written.
fn questions_fit(qs: &Vec<DnsQuestion>) -> (r: bool)
    ensures
        r == questions_ok(questions_view(qs@)),
{
    let mut k: usize = 0;
    while k < qs.len()
        invariant
            k <= qs@.len(),
            forall|j: int| 0 <= j < k ==> name_ok(#[trigger] questions_view(qs@)[j].0),
        decreases qs.len() - k,
    {
        if !name_fits(qs[k].qname.as_str().as_bytes()) {
            assert(questions_view(qs@)[k as int].0 == qs@[k as int].qname@);
            return false;
        }
        k = k + 1;
    }
    true
}

/// Whether every record's name can be written.
pub(crate) fn records_fit(rs: &Vec<DnsRecord>) -> (r: bool)
    ensures
        r == records_ok(records_view(rs@)),
{
    let mut k: usize = 0;
    while k < rs.len()
        invariant
            k <= rs@.len(),
            forall|j: int| 0 <= j < k ==> name_ok(#[trigger] records_view(rs@)[j].0),
        decreases rs.len() - k,
    {
        let rec = &rs[k];
        let fits = match rec {
            DnsRecord::A { name, .. } => {
                assert(rec@.0 == name@);
                name_fits(name.as_str().as_bytes())
            },
        };
        if !fits {
            assert(records_view(rs@)[k as int] == rs@[k as int]@);
            return false;
        }
        k = k + 1;
    }
    true
}

/// Writes the questions one after another; fails exactly when they do not
/// all fit.
fn write_questions(qs: &Vec<DnsQuestion>, w: &mut BytePacketWriter) -> (r: Result<(), DnsError>)
    requires
        old(w).wf(),
        questions_ok(questions_view(qs@)),
    ensures
        final(w).wf(),
        final(w).bytes().len() == old(w).bytes().len(),
        old(w).cursor() + questions_wire(questions_view(qs@)).len() <= old(w).bytes().len() ==> r is Ok
            && final(w).bytes() == splice(old(w).bytes(), old(w).cursor(), questions_wire(questions_view(qs@)))
            && final(w).cursor() == old(w).cursor() + questions_wire(questions_view(qs@)).len(),
        old(w).cursor() + questions_wire(questions_view(qs@)).len() > old(w).bytes().len() ==> r == Err::<
            (),
            DnsError,
        >(DnsError::EndOfBuffer),
{
    let ghost b0 = w.bytes();
    let ghost base = w.cursor();
    let mut k: usize = 0;
    assert(questions_view(qs@).take(0) =~= seq![]);
    assert(splice(b0, base, seq![]) =~= b0);
    while k < qs.len()
        invariant
            k <= qs@.len(),
            questions_ok(questions_view(qs@)),
            w.wf(),
            w.bytes().len() == b0.len(),
            b0 == old(w).bytes(),
            base == old(w).cursor(),
            base + questions_wire(questions_view(qs@).take(k as int)).len() <= b0.len(),
            w.bytes() == splice(b0, base, questions_wire(questions_view(qs@).take(k as int))),
            w.cursor() == base + questions_wire(questions_view(qs@).take(k as int)).len(),
        decreases qs.len() - k,
    {
        let ghost acc = questions_wire(questions_view(qs@).take(k as int));
        let ghost v = questions_view(qs@);
        proof {
            assert(v.take(k + 1).drop_last() =~= v.take(k as int));
            assert(v.take(k + 1).last() == qs@[k as int]@);
            assert(name_ok(v[k as int].0));
        }
        match qs[k].write(w) {
            Ok(()) => {},
            Err(e) => {
                proof {
                    lemma_questions_prefix(v, k + 1);
                }
                return Err(e);
            },
        }
        proof {
            lemma_splice_then(b0, base, acc, question_wire(qs@[k as int]@));
        }
        k = k + 1;
    }
    assert(questions_view(qs@).take(k as int) =~= questions_view(qs@));
    Ok(())
}

/// Writes the records one after another; fails exactly when they do not
/// all fit.
pub(crate) fn write_records(rs: &Vec<DnsRecord>, w: &mut BytePacketWriter) -> (r: Result<(), DnsError>)
    requires
        old(w).wf(),
        records_ok(records_view(rs@)),
    ensures
        final(w).wf(),
        final(w).bytes().len() == old(w).bytes().len(),
        old(w).cursor() + records_wire(records_view(rs@)).len() <= old(w).bytes().len() ==> r is Ok
            && final(w).bytes() == splice(old(w).bytes(), old(w).cursor(), records_wire(records_view(rs@)))
            && final(w).cursor() == old(w).cursor() + records_wire(records_view(rs@)).len(),
        old(w).cursor() + records_wire(records_view(rs@)).len() > old(w).bytes().len() ==> r == Err::<
            (),
            DnsError,
        >(DnsError::EndOfBuffer),
{
    let ghost b0 = w.bytes();
    let ghost base = w.cursor();
    let mut k: usize = 0;
    assert(records_view(rs@).take(0) =~= seq![]);
    assert(splice(b0, base, seq![]) =~= b0);
    while k < rs.len()
        invariant
            k <= rs@.len(),
            records_ok(records_view(rs@)),
            w.wf(),
            w.bytes().len() == b0.len(),
            b0 == old(w).bytes(),
            base == old(w).cursor(),
            base + records_wire(records_view(rs@).take(k as int)).len() <= b0.len(),
            w.bytes() == splice(b0, base, records_wire(records_view(rs@).take(k as int))),
            w.cursor() == base + records_wire(records_view(rs@).take(k as int)).len(),
        decreases rs.len() - k,
    {
        let ghost acc = records_wire(records_view(rs@).take(k as int));
        let ghost v = records_view(rs@);
        proof {
            assert(v.take(k + 1).drop_last() =~= v.take(k as int));
            assert(v.take(k + 1).last() == rs@[k as int]@);
            assert(name_ok(v[k as int].0));
        }
        match rs[k].write(w) {
            Ok(()) => {},
            Err(e) => {
                proof {
                    lemma_records_prefix(v, k + 1);
                }
                return Err(e);
            },
        }
        proof {
            lemma_splice_then(b0, base, acc, record_wire(rs@[k as int]@));
        }
        k = k + 1;
    }
    assert(records_view(rs@).take(k as int) =~= records_view(rs@));
    Ok(())
}

/// Copies `v` over `out`, which has the same length.
pub(crate) fn copy_into(out: &mut [u8], v: &Vec<u8>)
    requires
        old(out)@.len() == v@.len(),
    ensures
        final(out)@ == v@,
{
    let ghost b0 = out@;
    let mut i: usize = 0;
    while i < v.len()
        invariant
            v@.len() == b0.len(),
            out@.len() == b0.len(),
            i <= v@.len(),
            forall|j: int| 0 <= j < i ==> out@[j] == v@[j],
        decreases v.len() - i,
    {
        out[i] = v[i];
        i = i + 1;
    }
    assert(out@ =~= v@);
}

/// A DNS message: header, questions, and the answer, authority and
/// additional records.
#[derive(Debug)]
pub struct DnsPacket {
    pub header: DnsHeader,
    pub questions: Vec<DnsQuestion>,
    pub answers: Vec<DnsRecord>,
    pub authorities: Vec<DnsRecord>,
    pub additionals: Vec<DnsRecord>,
}

/// Every name of a message with these sections can be written.
pub open spec fn message_ok(
    qs: Seq<(Seq<char>, u16)>,
    an: Seq<(Seq<char>, [u8; 4], u32)>,
    ns: Seq<(Seq<char>, [u8; 4], u32)>,
    ar: Seq<(Seq<char>, [u8; 4], u32)>,
) -> bool {
    questions_ok(qs) && records_ok(an) && records_ok(ns) && records_ok(ar)
}

/// A message with this header and these sections on the wire: header,
/// questions, answers, authorities, additionals.
pub open spec fn message_wire(
    h: DnsHeader,
    qs: Seq<(Seq<char>, u16)>,
    an: Seq<(Seq<char>, [u8; 4], u32)>,
    ns: Seq<(Seq<char>, [u8; 4], u32)>,
    ar: Seq<(Seq<char>, [u8; 4], u32)>,
) -> Seq<u8> {
    header_bytes(h) + questions_wire(qs) + records_wire(an) + records_wire(ns) + records_wire(ar)
}

/// Every name in the message can be written.
pub open spec fn packet_ok(p: DnsPacket) -> bool {
    message_ok(
        questions_view(p.questions@),
        records_view(p.answers@),
        records_view(p.authorities@),
        records_view(p.additionals@),
    )
}

/// The message on the wire.
pub open spec fn packet_wire(p: DnsPacket) -> Seq<u8> {
    message_wire(
        p.header,
        questions_view(p.questions@),
        records_view(p.answers@),
        records_view(p.authorities@),
        records_view(p.additionals@),
    )
}

impl DnsPacket {
    /// An empty message with a zero header.
    pub fn new() -> (r: DnsPacket)
        ensures
            r.header == DnsHeader::new_spec(),
            r.questions@.len() == 0,
            r.answers@.len() == 0,
            r.authorities@.len() == 0,
            r.additionals@.len() == 0,
    {
        DnsPacket {
            header: DnsHeader::new(),
            questions: Vec::new(),
            answers: Vec::new(),
            authorities: Vec::new(),
            additionals: Vec::new(),
        }
    }

    /// Reads a query: its header, then exactly as many questions as the
    /// header counts. Record sections are not read. A query with no question
    /// is refused.
    pub fn from(buf: &[u8]) -> (r: Result<DnsPacket, DnsError>)
        ensures
            match query_of(buf@) {
                Ok((h, qs)) => r is Ok && r->Ok_0.header == h && questions_view(
                    r->Ok_0.questions@,
                ) == qs && r->Ok_0.answers@.len() == 0 && r->Ok_0.authorities@.len() == 0
                    && r->Ok_0.additionals@.len() == 0,
                Err(x) => r is Err && r->Err_0 == x,
            },
    {
        match DnsPacket::decode_query(buf) {
            Ok((p, _)) => Ok(p),
            Err(e) => Err(e),
        }
    }

    /// Reads a query as `from` does, and gives as well the position right
    /// after its questions.
    pub fn decode_query(buf: &[u8]) -> (r: Result<(DnsPacket, usize), DnsError>)
        ensures
            match query_of(buf@) {
                Ok((h, qs)) => r is Ok && r->Ok_0.0.header == h && questions_view(
                    r->Ok_0.0.questions@,
                ) == qs && r->Ok_0.0.answers@.len() == 0 && r->Ok_0.0.authorities@.len() == 0
                    && r->Ok_0.0.additionals@.len() == 0 && r->Ok_0.1 == query_end(buf@) && 12
                    <= r->Ok_0.1 <= buf@.len(),
                Err(x) => r is Err && r->Err_0 == x,
            },
    {
        let mut bpacket = BytePacketReader::new(buf);
        let header = match DnsHeader::from_byte_packet(&mut bpacket) {
            Ok(h) => h,
            Err(e) => return Err(e),
        };
        if header.qdcount == 0 {
            return Err(DnsError::NoQuestion);
        }
        let ghost b = buf@;
        let ghost n = header.qdcount as nat;
        let mut questions: Vec<DnsQuestion> = Vec::new();
        let mut k: u16 = 0;
        while k < header.qdcount
            invariant
                bpacket.wf(),
                bpacket.data() == b,
                b == buf@,
                b.len() >= 12,
                header == header_at(b, 0),
                n == header.qdcount as nat,
                k <= header.qdcount,
                12 <= bpacket.cursor(),
                questions@.len() == k,
                questions_at(b, 12, n) == match questions_at(
                    b,
                    bpacket.cursor(),
                    (n - k) as nat,
                ) {
                    Ok((qs, e)) => Ok((questions_view(questions@) + qs, e)),
                    Err(x) => Err::<(Seq<(Seq<char>, u16)>, int), DnsError>(x),
                },
            decreases header.qdcount - k,
        {
            let ghost p = bpacket.cursor();
            let question = match DnsQuestion::from_byte_packet(&mut bpacket) {
                Ok(q) => q,
                Err(e) => {
                    assert(questions_at(b, p, (n - k) as nat) == Err::<
                        (Seq<(Seq<char>, u16)>, int),
                        DnsError,
                    >(e));
                    assert(questions_at(b, 12, n) == Err::<
                        (Seq<(Seq<char>, u16)>, int),
                        DnsError,
                    >(e));
                    assert(query_of(b) == Err::<(DnsHeader, Seq<(Seq<char>, u16)>), DnsError>(e));
                    return Err(e);
                },
            };
            proof {
                lemma_name_at_end(b, p);
                let done = questions_view(questions@);
                assert(questions_view(questions@.push(question)) =~= done.push(question@));
                match questions_at(b, bpacket.cursor(), (n - k - 1) as nat) {
                    Ok((qs, e)) => {
                        assert(done + (seq![question@] + qs) =~= done.push(question@) + qs);
                    },
                    Err(x) => {},
                }
            }
            questions.push(question);
            k = k + 1;
        }
        proof {
            assert(questions_view(questions@) + seq![] =~= questions_view(questions@));
        }
        let end = bpacket.position();
        Ok(
            (
                DnsPacket {
                    header,
                    questions,
                    answers: Vec::new(),
                    authorities: Vec::new(),
                    additionals: Vec::new(),
                },
                end,
            ),
        )
    }

    /// Writes the message at the start of `buf` and returns how many bytes
    /// it takes. `buf` is left as it was when a name has a label longer than
    /// 255 bytes or the message does not fit.
    pub fn write(&self, buf: &mut [u8]) -> (r: Result<usize, DnsError>)
        ensures
            !packet_ok(*self) ==> r == Err::<usize, DnsError>(DnsError::LabelTooLong)
                && final(buf)@ == old(buf)@,
            packet_ok(*self) && packet_wire(*self).len() > old(buf)@.len() ==> r == Err::<
                usize,
                DnsError,
            >(DnsError::EndOfBuffer) && final(buf)@ == old(buf)@,
            packet_ok(*self) && packet_wire(*self).len() <= old(buf)@.len() ==> r == Ok::<
                usize,
                DnsError,
            >(packet_wire(*self).len() as usize) && final(buf)@ == splice(
                old(buf)@,
                0,
                packet_wire(*self),
            ),
    {
        if !questions_fit(&self.questions) || !records_fit(&self.answers) || !records_fit(
            &self.authorities,
        ) || !records_fit(&self.additionals) {
            return Err(DnsError::LabelTooLong);
        }
        let ghost b0 = buf@;
        let ghost h = header_bytes(self.header);
        let ghost q = questions_wire(questions_view(self.questions@));
        let ghost an = records_wire(records_view(self.answers@));
        let ghost ns = records_wire(records_view(self.authorities@));
        let ghost ar = records_wire(records_view(self.additionals@));
        assert(packet_wire(*self) == h + q + an + ns + ar);
        let mut bpacket = BytePacketWriter::new(slice_to_vec(buf));
        match self.header.write(&mut bpacket) {
            Ok(()) => {},
            Err(e) => return Err(e),
        }
        match write_questions(&self.questions, &mut bpacket) {
            Ok(()) => {},
            Err(e) => return Err(e),
        }
        proof {
            lemma_splice_then(b0, 0, h, q);
        }
        match write_records(&self.answers, &mut bpacket) {
            Ok(()) => {},
            Err(e) => return Err(e),
        }
        proof {
            lemma_splice_then(b0, 0, h + q, an);
        }
        match write_records(&self.authorities, &mut bpacket) {
            Ok(()) => {},
            Err(e) => return Err(e),
        }
        proof {
            lemma_splice_then(b0, 0, h + q + an, ns);
        }
        match write_records(&self.additionals, &mut bpacket) {
            Ok(()) => {},
            Err(e) => return Err(e),
        }
        proof {
            lemma_splice_then(b0, 0, h + q + an + ns, ar);
        }
        let len = bpacket.pos();
        let out = bpacket.into_bytes();
        copy_into(buf, &out);
        Ok(len)
    }
}

} // verus!
