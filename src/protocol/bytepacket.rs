use crate::error::DnsError;
use vstd::prelude::*;
use vstd::string::StringExecFns;
use vstd::utf8::*;

verus! {

/// `buf` with `data` written over it from index `at` on.
pub open spec fn splice(buf: Seq<u8>, at: int, data: Seq<u8>) -> Seq<u8> {
    buf.subrange(0, at) + data + buf.subrange(at + data.len(), buf.len() as int)
}

/// A 16-bit value as two big-endian bytes.
pub open spec fn be16(v: u16) -> Seq<u8> {
    seq![(v >> 8u16) as u8, v as u8]
}

/// A 32-bit value as four big-endian bytes.
pub open spec fn be32(v: u32) -> Seq<u8> {
    seq![(v >> 24u32) as u8, (v >> 16u32) as u8, (v >> 8u32) as u8, v as u8]
}

/// The 16-bit value of two big-endian bytes.
pub open spec fn u16_of(hi: u8, lo: u8) -> u16 {
    ((hi as u16) << 8u16) | (lo as u16)
}

/// The labels of a dotted name given as bytes, scanning from `i` with the
/// current label begun at `start`: the pieces between '.' bytes, in order.
pub open spec fn labels_scan(b: Seq<u8>, start: int, i: int) -> Seq<Seq<u8>>
    decreases b.len() - i,
{
    if i >= b.len() {
        seq![b.subrange(start, b.len() as int)]
    } else if b[i] == 46u8 {
        seq![b.subrange(start, i)] + labels_scan(b, i + 1, i + 1)
    } else {
        labels_scan(b, start, i + 1)
    }
}

/// The labels of a dotted name given as bytes.
pub open spec fn labels_of(b: Seq<u8>) -> Seq<Seq<u8>> {
    labels_scan(b, 0, 0)
}

/// Every label fits in a length byte.
pub open spec fn labels_fit(ls: Seq<Seq<u8>>) -> bool {
    forall|k: int| 0 <= k < ls.len() ==> #[trigger] ls[k].len() <= 255
}

/// A sequence of labels on the wire: each as a length byte and its bytes,
/// then a zero byte.
pub open spec fn labels_wire(ls: Seq<Seq<u8>>) -> Seq<u8>
    decreases ls.len(),
{
    if ls.len() == 0 {
        seq![0u8]
    } else {
        seq![ls[0].len() as u8] + ls[0] + labels_wire(ls.drop_first())
    }
}

/// A dotted name, given as bytes, on the wire.
pub open spec fn name_wire(b: Seq<u8>) -> Seq<u8> {
    labels_wire(labels_of(b))
}

/// Labels joined by '.'.
pub open spec fn dotted(ls: Seq<Seq<char>>) -> Seq<char>
    decreases ls.len(),
{
    if ls.len() == 0 {
        seq![]
    } else if ls.len() == 1 {
        ls[0]
    } else {
        ls[0] + seq!['.'] + dotted(ls.drop_first())
    }
}

/// Each label as the text its bytes encode.
pub open spec fn decode_labels(ls: Seq<Seq<u8>>) -> Seq<Seq<char>> {
    ls.map_values(|l: Seq<u8>| decode_utf8(l))
}

/// The name read at `p` of `b`: its raw labels and the position after it,
/// or the error that stops the read.
pub open spec fn name_at(b: Seq<u8>, p: int) -> Result<(Seq<Seq<u8>>, int), DnsError>
    decreases b.len() - p,
{
    if p < 0 || p >= b.len() {
        Err(DnsError::EndOfBuffer)
    } else if b[p] == 0 {
        Ok((seq![], p + 1))
    } else if p + 1 + b[p] > b.len() {
        Err(DnsError::EndOfBuffer)
    } else if !valid_utf8(b.subrange(p + 1, p + 1 + b[p])) {
        Err(DnsError::Encoding)
    } else {
        match name_at(b, p + 1 + b[p]) {
            Ok((ls, e)) => Ok((seq![b.subrange(p + 1, p + 1 + b[p])] + ls, e)),
            Err(e) => Err(e),
        }
    }
}

/// The text of the name read at `p` of `b`, and the position after it.
pub open spec fn name_text_at(b: Seq<u8>, p: int) -> Result<(Seq<char>, int), DnsError> {
    match name_at(b, p) {
        Ok((ls, e)) => Ok((dotted(decode_labels(ls)), e)),
        Err(e) => Err(e),
    }
}

/// Relies on std::str::from_utf8: it succeeds exactly on valid UTF-8, and
/// then yields the text those bytes encode.
#[verifier::external_body]
pub(crate) fn utf8_text(b: &[u8]) -> (r: Option<&str>)
    ensures
        match r {
            Some(s) => valid_utf8(b@) && s@ == decode_utf8(b@),
            None => !valid_utf8(b@),
        },
{
    std::str::from_utf8(b).ok()
}

/// A name read at `p` ends after `p` and within the buffer.
pub proof fn lemma_name_at_end(b: Seq<u8>, p: int)
    ensures
        name_at(b, p) is Ok ==> p < name_at(b, p)->Ok_0.1 <= b.len(),
    decreases b.len() - p,
{
    if 0 <= p < b.len() && b[p] != 0 && p + 1 + b[p] <= b.len() {
        lemma_name_at_end(b, p + 1 + b[p]);
    }
}

/// Joining one more label onto a nonempty dotted name puts a '.' before it.
pub proof fn lemma_dotted_push(ls: Seq<Seq<char>>, x: Seq<char>)
    requires
        ls.len() > 0,
    ensures
        dotted(ls.push(x)) == dotted(ls) + seq!['.'] + x,
    decreases ls.len(),
{
    let lx = ls.push(x);
    if ls.len() == 1 {
        assert(lx.drop_first() =~= seq![x]);
        assert(dotted(lx.drop_first()) == x);
        assert(dotted(lx) == ls[0] + seq!['.'] + x);
    } else {
        lemma_dotted_push(ls.drop_first(), x);
        assert(lx.drop_first() =~= ls.drop_first().push(x));
        assert(dotted(lx) == ls[0] + seq!['.'] + (dotted(ls.drop_first()) + seq!['.'] + x));
        assert(dotted(lx) =~= dotted(ls) + seq!['.'] + x);
    }
}

/// A reader's cursor is never negative, nor past the end when well formed.
pub broadcast proof fn lemma_reader_cursor(r: &BytePacketReader)
    ensures
        #[trigger] r.cursor() >= 0,
        r.wf() ==> r.cursor() <= r.data().len(),
{
}

/// A writer's cursor is never negative, nor past the end when well formed.
pub broadcast proof fn lemma_writer_cursor(w: &BytePacketWriter)
    ensures
        #[trigger] w.cursor() >= 0,
        w.wf() ==> w.cursor() <= w.bytes().len(),
{
}

/// A cursor that reads a byte buffer from the front.
pub struct BytePacketReader<'a> {
    buf: &'a [u8],
    pos: usize,
}

impl<'a> BytePacketReader<'a> {
    /// The bytes being read.
    pub closed spec fn data(&self) -> Seq<u8> {
        self.buf@
    }

    /// The position of the next byte to read.
    pub closed spec fn cursor(&self) -> int {
        self.pos as int
    }

    /// The cursor lies within the buffer.
    pub closed spec fn wf(&self) -> bool {
        self.pos <= self.buf@.len()
    }

    /// A reader at the start of `buf`.
    pub fn new(buf: &'a [u8]) -> (r: BytePacketReader<'a>)
        ensures
            r.wf(),
            r.data() == buf@,
            r.cursor() == 0,
    {
        BytePacketReader { buf, pos: 0 }
    }

    /// The position of the next byte to read.
    pub fn position(&self) -> (r: usize)
        ensures
            r == self.cursor(),
    {
        self.pos
    }

    /// How many bytes are left to read.
    pub fn remaining(&self) -> (r: usize)
        requires
            self.wf(),
        ensures
            r == self.data().len() - self.cursor(),
    {
        self.buf.len() - self.pos
    }

    fn read(&mut self) -> (r: Result<u8, DnsError>)
        requires
            old(self).wf(),
        ensures
            final(self).wf(),
            final(self).buf == old(self).buf,
            final(self).data() == old(self).data(),
            old(self).cursor() < old(self).data().len() ==> r == Ok::<u8, DnsError>(
                old(self).data()[old(self).cursor()],
            ) && final(self).cursor() == old(self).cursor() + 1,
            old(self).cursor() >= old(self).data().len() ==> r == Err::<u8, DnsError>(
                DnsError::EndOfBuffer,
            ) && *final(self) == *old(self),
    {
        if self.pos >= self.buf.len() {
            return Err(DnsError::EndOfBuffer);
        }
        let data = self.buf[self.pos];
        self.pos = self.pos + 1;
        Ok(data)
    }

    fn read_range(&mut self, len: usize) -> (r: Result<&'a [u8], DnsError>)
        requires
            old(self).wf(),
        ensures
            final(self).wf(),
            final(self).buf == old(self).buf,
            final(self).data() == old(self).data(),
            old(self).cursor() + len <= old(self).data().len() ==> r is Ok && r->Ok_0@
                == old(self).data().subrange(old(self).cursor(), old(self).cursor() + len)
                && final(self).cursor() == old(self).cursor() + len,
            old(self).cursor() + len > old(self).data().len() ==> r == Err::<&'a [u8], DnsError>(
                DnsError::EndOfBuffer,
            ) && *final(self) == *old(self),
    {
        if len > self.buf.len() - self.pos {
            return Err(DnsError::EndOfBuffer);
        }
        let data = vstd::slice::slice_subrange(self.buf, self.pos, self.pos + len);
        self.pos = self.pos + len;
        Ok(data)
    }

    /// Reads one byte.
    pub fn read_u8(&mut self) -> (r: Result<u8, DnsError>)
        requires
            old(self).wf(),
        ensures
            final(self).wf(),
            final(self).data() == old(self).data(),
            old(self).cursor() < old(self).data().len() ==> r == Ok::<u8, DnsError>(
                old(self).data()[old(self).cursor()],
            ) && final(self).cursor() == old(self).cursor() + 1,
            old(self).cursor() >= old(self).data().len() ==> r == Err::<u8, DnsError>(
                DnsError::EndOfBuffer,
            ) && *final(self) == *old(self),
    {
        self.read()
    }

    /// Reads two bytes as a big-endian value; nothing is consumed when fewer
    /// than two are left.
    pub fn read_u16(&mut self) -> (r: Result<u16, DnsError>)
        requires
            old(self).wf(),
        ensures
            final(self).wf(),
            final(self).data() == old(self).data(),
            old(self).cursor() + 2 <= old(self).data().len() ==> r == Ok::<u16, DnsError>(
                u16_of(
                    old(self).data()[old(self).cursor()],
                    old(self).data()[old(self).cursor() + 1],
                ),
            ) && final(self).cursor() == old(self).cursor() + 2,
            old(self).cursor() + 2 > old(self).data().len() ==> r == Err::<u16, DnsError>(
                DnsError::EndOfBuffer,
            ) && *final(self) == *old(self),
    {
        if self.remaining() < 2 {
            return Err(DnsError::EndOfBuffer);
        }
        let hi = match self.read() {
            Ok(v) => v,
            Err(e) => return Err(e),
        };
        let lo = match self.read() {
            Ok(v) => v,
            Err(e) => return Err(e),
        };
        Ok(((hi as u16) << 8u16) | (lo as u16))
    }
    /// Reads a domain name as a sequence of length-prefixed labels ended by
    /// a zero byte, and joins the labels with '.'. Nothing is consumed when
    /// the read fails.
    pub fn read_name(&mut self) -> (r: Result<String, DnsError>)
        requires
            old(self).wf(),
        ensures
            final(self).wf(),
            final(self).data() == old(self).data(),
            match name_text_at(old(self).data(), old(self).cursor()) {
                Ok((t, e)) => r is Ok && r->Ok_0@ == t && final(self).cursor() == e,
                Err(e) => r == Err::<String, DnsError>(e) && *final(self) == *old(self),
            },
    {
        let start = self.pos;
        let ghost b = self.data();
        let ghost base = self.cursor();
        let ghost orig = *self;
        let mut name = String::new();
        let mut first = true;
        let ghost mut done: Seq<Seq<u8>> = seq![];
        loop
            invariant_except_break
                name_at(b, base) == match name_at(b, self.cursor()) {
                    Ok((ls, e)) => Ok((done + ls, e)),
                    Err(e) => Err::<(Seq<Seq<u8>>, int), DnsError>(e),
                },
            invariant
                self.wf(),
                self.data() == b,
                self.buf == orig.buf,
                orig == *old(self),
                orig.pos == start,
                base == start as int,
                base <= self.cursor(),
                first == (done.len() == 0),
                name@ == dotted(decode_labels(done)),
            ensures
                name_at(b, base) == Ok::<(Seq<Seq<u8>>, int), DnsError>((done, self.cursor())),
            decreases b.len() - self.cursor(),
        {
            let ghost p = self.cursor();
            let len = match self.read() {
                Ok(v) => v as usize,
                Err(e) => {
                    self.pos = start;
                    assert(*self == orig);
                    return Err(e);
                },
            };
            if len == 0 {
                assert(b[p] == 0);
                assert(name_at(b, p) == Ok::<(Seq<Seq<u8>>, int), DnsError>((seq![], p + 1)));
                assert(done + seq![] =~= done);
                break;
            }
            let bytes = match self.read_range(len) {
                Ok(v) => v,
                Err(e) => {
                    self.pos = start;
                    assert(*self == orig);
                    return Err(e);
                },
            };
            let label = match utf8_text(bytes) {
                Some(t) => t,
                None => {
                    self.pos = start;
                    assert(*self == orig);
                    return Err(DnsError::Encoding);
                },
            };
            proof {
                let l = b.subrange(p + 1, p + 1 + len);
                assert(bytes@ == l);
                assert(decode_labels(done.push(l)) =~= decode_labels(done).push(decode_utf8(l)));
                if done.len() > 0 {
                    lemma_dotted_push(decode_labels(done), decode_utf8(l));
                } else {
                    assert(decode_labels(done.push(l)) =~= seq![decode_utf8(l)]);
                }
                match name_at(b, self.cursor()) {
                    Ok((ls, e)) => {
                        assert(done + (seq![l] + ls) =~= done.push(l) + ls);
                    },
                    Err(e) => {},
                }
                done = done.push(l);
            }
            if !first {
                proof {
                    reveal_strlit(".");
                }
                name.append(".");
            }
            name.append(label);
            first = false;
        }
        Ok(name)
    }
}

/// `cur` is `orig` with `data` written over it from `at` on.
pub open spec fn written(cur: Seq<u8>, orig: Seq<u8>, at: int, data: Seq<u8>) -> bool {
    &&& cur.len() == orig.len()
    &&& 0 <= at
    &&& at + data.len() <= orig.len()
    &&& forall|j: int| 0 <= j < at ==> cur[j] == orig[j]
    &&& forall|j: int| at + data.len() <= j < orig.len() ==> cur[j] == orig[j]
    &&& forall|j: int| 0 <= j < data.len() ==> cur[at + j] == data[j]
}

proof fn lemma_written_splice(cur: Seq<u8>, orig: Seq<u8>, at: int, data: Seq<u8>)
    requires
        written(cur, orig, at, data),
    ensures
        cur == splice(orig, at, data),
{
    let s = splice(orig, at, data);
    assert forall|j: int| 0 <= j < cur.len() implies cur[j] == s[j] by {
        if at <= j < at + data.len() {
            assert(cur[at + (j - at)] == data[j - at]);
        }
    }
    assert(cur =~= s);
}

proof fn lemma_written_then(c1: Seq<u8>, c2: Seq<u8>, orig: Seq<u8>, at: int, d1: Seq<u8>, d2: Seq<u8>)
    requires
        written(c1, orig, at, d1),
        written(c2, c1, at + d1.len(), d2),
    ensures
        written(c2, orig, at, d1 + d2),
{
    let d = d1 + d2;
    assert forall|j: int| 0 <= j < d.len() implies c2[at + j] == d[j] by {
        if j < d1.len() {
            assert(c1[at + j] == d1[j]);
        } else {
            assert(c2[at + d1.len() + (j - d1.len())] == d2[j - d1.len()]);
        }
    }
}

/// The wire form of the labels scanned from `i` on, with the current label
/// begun at `start`, is two bytes longer than the rest of the name.
pub proof fn lemma_wire_len(b: Seq<u8>, start: int, i: int)
    requires
        0 <= start <= i <= b.len(),
    ensures
        labels_wire(labels_scan(b, start, i)).len() == b.len() - start + 2,
        labels_scan(b, start, i).len() >= 1,
    decreases b.len() - i,
{
    let ls = labels_scan(b, start, i);
    if i >= b.len() {
        assert(ls.drop_first() =~= seq![]);
        assert(labels_wire(ls.drop_first()).len() == 1);
        assert(ls[0].len() == b.len() - start);
    } else if b[i] == 46u8 {
        let rest = labels_scan(b, i + 1, i + 1);
        lemma_wire_len(b, i + 1, i + 1);
        assert(ls.drop_first() =~= rest);
        assert(ls[0].len() == i - start);
    } else {
        lemma_wire_len(b, start, i + 1);
    }
}

/// Whether every label of the dotted name `b` fits in a length byte.
pub(crate) fn name_fits(b: &[u8]) -> (r: bool)
    ensures
        r == labels_fit(labels_of(b@)),
{
    let mut start: usize = 0;
    let mut i: usize = 0;
    let ghost mut done: Seq<Seq<u8>> = seq![];
    while i < b.len()
        invariant
            start <= i <= b.len(),
            labels_of(b@) == done + labels_scan(b@, start as int, i as int),
            labels_fit(done),
        decreases b.len() - i,
    {
        if b[i] == 46u8 {
            let ghost l = b@.subrange(start as int, i as int);
            if i - start > 255 {
                proof {
                    let ls = labels_of(b@);
                    assert(ls[done.len() as int] == l);
                }
                return false;
            }
            proof {
                assert(done + labels_scan(b@, start as int, i as int) =~= done.push(l)
                    + labels_scan(b@, i + 1, i + 1));
                done = done.push(l);
            }
            start = i + 1;
        }
        i = i + 1;
    }
    let ghost l = b@.subrange(start as int, b@.len() as int);
    proof {
        assert(labels_of(b@) == done + seq![l]);
        assert(labels_of(b@)[done.len() as int] == l);
    }
    if b.len() - start > 255 {
        return false;
    }
    proof {
        let ls = labels_of(b@);
        assert forall|k: int| 0 <= k < ls.len() implies #[trigger] ls[k].len() <= 255 by {
            if k < done.len() {
                assert(ls[k] == done[k]);
            }
        }
    }
    true
}

/// Two writes one after the other are one write of both pieces.
pub proof fn lemma_splice_then(b: Seq<u8>, at: int, d1: Seq<u8>, d2: Seq<u8>)
    requires
        0 <= at,
        at + d1.len() + d2.len() <= b.len(),
    ensures
        splice(splice(b, at, d1), at + d1.len(), d2) == splice(b, at, d1 + d2),
{
    assert(splice(splice(b, at, d1), at + d1.len(), d2) =~= splice(b, at, d1 + d2));
}

/// A 16-bit value read back from its two big-endian bytes.
pub proof fn lemma_u16_round_trip(v: u16)
    ensures
        u16_of(be16(v)[0], be16(v)[1]) == v,
{
    assert((((((v >> 8u16) as u8) as u16) << 8u16) | ((v as u8) as u16)) == v) by (bit_vector);
}

/// Labels that are nonempty, fit in a length byte, and hold valid UTF-8.
pub open spec fn labels_readable(ls: Seq<Seq<u8>>) -> bool {
    forall|k: int|
        0 <= k < ls.len() ==> 1 <= #[trigger] ls[k].len() <= 255 && valid_utf8(ls[k])
}

/// Labels laid out on the wire at `p` are read back as they are.
pub proof fn lemma_read_labels_wire(ls: Seq<Seq<u8>>, c: Seq<u8>, p: int)
    requires
        labels_readable(ls),
        0 <= p,
        p + labels_wire(ls).len() <= c.len(),
        c.subrange(p, p + labels_wire(ls).len()) == labels_wire(ls),
    ensures
        name_at(c, p) == Ok::<(Seq<Seq<u8>>, int), DnsError>((ls, p + labels_wire(ls).len())),
    decreases ls.len(),
{
    let w = labels_wire(ls);
    assert(c[p] == c.subrange(p, p + w.len())[0]);
    if ls.len() == 0 {
        assert(w == seq![0u8]);
        assert(c[p] == 0);
        assert(ls =~= seq![]);
    } else {
        let n = ls[0].len();
        let rest = ls.drop_first();
        let wr = labels_wire(rest);
        assert(w == seq![n as u8] + ls[0] + wr);
        assert(c[p] == n);
        assert(c.subrange(p + 1, p + 1 + n) =~= ls[0]) by {
            assert forall|j: int| 0 <= j < n implies c.subrange(p + 1, p + 1 + n)[j] == ls[0][j] by {
                assert(c[p + 1 + j] == w[1 + j]);
            }
        }
        assert(c.subrange(p + 1 + n, p + 1 + n + wr.len()) =~= wr) by {
            assert forall|j: int| 0 <= j < wr.len() implies c.subrange(
                p + 1 + n,
                p + 1 + n + wr.len(),
            )[j] == wr[j] by {
                assert(c[p + 1 + n + j] == w[1 + n + j]);
            }
        }
        assert forall|k: int| 0 <= k < rest.len() implies 1 <= #[trigger] rest[k].len() <= 255
            && valid_utf8(rest[k]) by {
            assert(rest[k] == ls[k + 1]);
        }
        lemma_read_labels_wire(rest, c, p + 1 + n);
        assert(seq![ls[0]] + rest =~= ls);
        assert(w.len() == 1 + n + wr.len());
        assert(valid_utf8(ls[0]));
        assert(c[p] as int == n);
        assert(c.subrange(p + 1, p + 1 + c[p]) == ls[0]);
        assert(c[p] != 0);
        assert(p + 1 + c[p] <= c.len());
    }
}

/// The labels of a dotted name in valid UTF-8 are valid UTF-8 themselves, and
/// joining their text with '.' gives back the text of the name.
pub proof fn lemma_labels_text(b: Seq<u8>, start: int, i: int)
    requires
        0 <= start <= i <= b.len(),
        valid_utf8(b.subrange(start, b.len() as int)),
    ensures
        forall|k: int|
            0 <= k < labels_scan(b, start, i).len() ==> valid_utf8(
                #[trigger] labels_scan(b, start, i)[k],
            ),
        dotted(decode_labels(labels_scan(b, start, i))) == decode_utf8(
            b.subrange(start, b.len() as int),
        ),
    decreases b.len() - i,
{
    let ls = labels_scan(b, start, i);
    let t = b.subrange(start, b.len() as int);
    if i >= b.len() {
        assert(decode_labels(ls) =~= seq![decode_utf8(t)]);
    } else if b[i] == 46u8 {
        let idx = i - start;
        let l = b.subrange(start, i);
        let u = b.subrange(i, b.len() as int);
        let v = b.subrange(i + 1, b.len() as int);
        let rest = labels_scan(b, i + 1, i + 1);
        assert(t[idx] == 46u8);
        is_char_boundary_iff_not_is_continuation_byte(t, idx);
        valid_utf8_split(t, idx);
        decode_utf8_split(t, idx);
        assert(t.subrange(0, idx) =~= l);
        assert(t.subrange(idx, t.len() as int) =~= u);
        assert(u[0] == 46u8);
        assert(pop_first_scalar(u) =~= v);
        assert(valid_utf8(v));
        assert((46u8 & 0x7Fu8) == 46u8) by (bit_vector);
        assert(decode_first_scalar(u) == 46u32);
        assert(('.' as u32) == 46u32);
        char_u32_cast('.', 46u32);
        assert(decode_first_scalar(u) as char == '.');
        assert(decode_utf8(u) == seq!['.'] + decode_utf8(v));
        lemma_labels_text(b, i + 1, i + 1);
        lemma_wire_len(b, i + 1, i + 1);
        assert(ls == seq![l] + rest);
        let dl = decode_labels(ls);
        assert(dl.drop_first() =~= decode_labels(rest));
        assert(dl[0] == decode_utf8(l));
        assert(dotted(dl) == decode_utf8(l) + seq!['.'] + decode_utf8(v));
        assert(decode_utf8(t) =~= decode_utf8(l) + (seq!['.'] + decode_utf8(v)));
        assert forall|k: int| 0 <= k < ls.len() implies valid_utf8(#[trigger] ls[k]) by {
            if k > 0 {
                assert(ls[k] == rest[k - 1]);
            }
        }
    } else {
        lemma_labels_text(b, start, i + 1);
    }
}

/// Reading back a written name gives the name itself, for every name whose
/// labels are each between 1 and 255 bytes long: the read ends right after
/// the written bytes.
pub proof fn lemma_name_round_trip(name: Seq<char>, buf: Seq<u8>, at: int)
    requires
        forall|k: int|
            0 <= k < labels_of(encode_utf8(name)).len() ==> 1 <= (
            #[trigger] labels_of(encode_utf8(name))[k]).len() <= 255,
        0 <= at,
        at + name_wire(encode_utf8(name)).len() <= buf.len(),
    ensures
        name_text_at(splice(buf, at, name_wire(encode_utf8(name))), at) == Ok::<
            (Seq<char>, int),
            DnsError,
        >((name, at + name_wire(encode_utf8(name)).len())),
{
    let b = encode_utf8(name);
    let ls = labels_of(b);
    let w = name_wire(b);
    let c = splice(buf, at, w);
    encode_utf8_valid_utf8(name);
    encode_utf8_decode_utf8(name);
    assert(b.subrange(0, b.len() as int) =~= b);
    lemma_labels_text(b, 0, 0);
    assert(c.subrange(at, at + w.len()) =~= w);
    lemma_read_labels_wire(ls, c, at);
}

/// A cursor that fills a fixed-size byte buffer from the front.
pub struct BytePacketWriter {
    buf: Vec<u8>,
    pos: usize,
}

impl BytePacketWriter {
    /// The buffer as it stands.
    pub closed spec fn bytes(&self) -> Seq<u8> {
        self.buf@
    }

    /// The position of the next byte to write.
    pub closed spec fn cursor(&self) -> int {
        self.pos as int
    }

    /// The cursor lies within the buffer.
    pub closed spec fn wf(&self) -> bool {
        self.pos <= self.buf@.len()
    }

    /// A writer at the start of `buf`, whose length it keeps.
    pub fn new(buf: Vec<u8>) -> (r: BytePacketWriter)
        ensures
            r.wf(),
            r.bytes() == buf@,
            r.cursor() == 0,
    {
        BytePacketWriter { buf, pos: 0 }
    }

    /// The position of the next byte to write: after a run of writes, the
    /// number of bytes written.
    pub fn pos(&self) -> (r: usize)
        ensures
            r == self.cursor(),
    {
        self.pos
    }

    /// How many bytes can still be written.
    pub fn remaining(&self) -> (r: usize)
        requires
            self.wf(),
        ensures
            r == self.bytes().len() - self.cursor(),
    {
        self.buf.len() - self.pos
    }

    /// Gives the buffer back.
    pub fn into_bytes(self) -> (r: Vec<u8>)
        ensures
            r@ == self.bytes(),
    {
        self.buf
    }

    fn put(&mut self, data: u8)
        requires
            old(self).wf(),
            old(self).pos < old(self).buf.len(),
        ensures
            final(self).wf(),
            final(self).buf@ == old(self).buf@.update(old(self).pos as int, data),
            final(self).pos == old(self).pos + 1,
            written(final(self).buf@, old(self).buf@, old(self).pos as int, seq![data]),
    {
        let p = self.pos;
        self.buf.set(p, data);
        self.pos = p + 1;
    }

    fn write(&mut self, data: u8) -> (r: Result<(), DnsError>)
        requires
            old(self).wf(),
        ensures
            final(self).wf(),
            old(self).cursor() < old(self).bytes().len() ==> r is Ok && final(self).bytes()
                == splice(old(self).bytes(), old(self).cursor(), seq![data])
                && final(self).cursor() == old(self).cursor() + 1,
            old(self).cursor() >= old(self).bytes().len() ==> r == Err::<(), DnsError>(
                DnsError::EndOfBuffer,
            ) && *final(self) == *old(self),
    {
        if self.pos >= self.buf.len() {
            return Err(DnsError::EndOfBuffer);
        }
        let ghost ob = self.buf@;
        self.put(data);
        assert(self.buf@ =~= splice(ob, old(self).pos as int, seq![data]));
        Ok(())
    }

    /// Writes `data` as it is; nothing is written when it does not fit.
    pub fn write_bytes(&mut self, data: &[u8]) -> (r: Result<(), DnsError>)
        requires
            old(self).wf(),
        ensures
            final(self).wf(),
            old(self).cursor() + data@.len() <= old(self).bytes().len() ==> r is Ok
                && final(self).bytes() == splice(old(self).bytes(), old(self).cursor(), data@)
                && final(self).cursor() == old(self).cursor() + data@.len(),
            old(self).cursor() + data@.len() > old(self).bytes().len() ==> r == Err::<
                (),
                DnsError,
            >(DnsError::EndOfBuffer) && *final(self) == *old(self),
    {
        if data.len() > self.buf.len() - self.pos {
            return Err(DnsError::EndOfBuffer);
        }
        let ghost ob = self.buf@;
        let ghost base = self.pos as int;
        let mut k: usize = 0;
        assert(written(self.buf@, ob, base, data@.subrange(0, 0)));
        while k < data.len()
            invariant
                self.wf(),
                k <= data@.len(),
                self.pos == base + k,
                base + data@.len() <= ob.len(),
                written(self.buf@, ob, base, data@.subrange(0, k as int)),
            decreases data.len() - k,
        {
            let ghost c1 = self.buf@;
            self.put(data[k]);
            proof {
                lemma_written_then(c1, self.buf@, ob, base, data@.subrange(0, k as int), seq![data@[k as int]]);
                assert(data@.subrange(0, k as int) + seq![data@[k as int]] =~= data@.subrange(0, k + 1));
            }
            k = k + 1;
        }
        proof {
            assert(data@.subrange(0, k as int) =~= data@);
            lemma_written_splice(self.buf@, ob, base, data@);
        }
        Ok(())
    }

    /// Writes one byte.
    pub fn write_u8(&mut self, data: u8) -> (r: Result<(), DnsError>)
        requires
            old(self).wf(),
        ensures
            final(self).wf(),
            old(self).cursor() < old(self).bytes().len() ==> r is Ok && final(self).bytes()
                == splice(old(self).bytes(), old(self).cursor(), seq![data])
                && final(self).cursor() == old(self).cursor() + 1,
            old(self).cursor() >= old(self).bytes().len() ==> r == Err::<(), DnsError>(
                DnsError::EndOfBuffer,
            ) && *final(self) == *old(self),
    {
        self.write(data)
    }

    /// Writes a value as two big-endian bytes; nothing is written when fewer
    /// than two bytes are left.
    pub fn write_u16(&mut self, data: u16) -> (r: Result<(), DnsError>)
        requires
            old(self).wf(),
        ensures
            final(self).wf(),
            old(self).cursor() + 2 <= old(self).bytes().len() ==> r is Ok && final(self).bytes()
                == splice(old(self).bytes(), old(self).cursor(), be16(data))
                && final(self).cursor() == old(self).cursor() + 2,
            old(self).cursor() + 2 > old(self).bytes().len() ==> r == Err::<(), DnsError>(
                DnsError::EndOfBuffer,
            ) && *final(self) == *old(self),
    {
        if self.buf.len() - self.pos < 2 {
            return Err(DnsError::EndOfBuffer);
        }
        let ghost ob = self.buf@;
        self.put((data >> 8u16) as u8);
        self.put(data as u8);
        assert(self.buf@ =~= splice(ob, old(self).pos as int, be16(data)));
        Ok(())
    }

    /// Writes a value as four big-endian bytes; nothing is written when fewer
    /// than four bytes are left.
    pub fn write_u32(&mut self, data: u32) -> (r: Result<(), DnsError>)
        requires
            old(self).wf(),
        ensures
            final(self).wf(),
            old(self).cursor() + 4 <= old(self).bytes().len() ==> r is Ok && final(self).bytes()
                == splice(old(self).bytes(), old(self).cursor(), be32(data))
                && final(self).cursor() == old(self).cursor() + 4,
            old(self).cursor() + 4 > old(self).bytes().len() ==> r == Err::<(), DnsError>(
                DnsError::EndOfBuffer,
            ) && *final(self) == *old(self),
    {
        if self.buf.len() - self.pos < 4 {
            return Err(DnsError::EndOfBuffer);
        }
        let ghost ob = self.buf@;
        self.put((data >> 24u32) as u8);
        self.put((data >> 16u32) as u8);
        self.put((data >> 8u32) as u8);
        self.put(data as u8);
        assert(self.buf@ =~= splice(ob, old(self).pos as int, be32(data)));
        Ok(())
    }
    /// Writes the label `b[start..end]` as a length byte and its bytes.
    fn put_label(&mut self, b: &[u8], start: usize, end: usize)
        requires
            old(self).wf(),
            start <= end <= b@.len(),
            end - start <= 255,
            old(self).pos + 1 + (end - start) <= old(self).buf@.len(),
        ensures
            final(self).wf(),
            final(self).pos == old(self).pos + 1 + (end - start),
            written(
                final(self).buf@,
                old(self).buf@,
                old(self).pos as int,
                seq![(end - start) as u8] + b@.subrange(start as int, end as int),
            ),
    {
        let ghost ob = self.buf@;
        let ghost base = self.pos as int;
        self.put((end - start) as u8);
        assert(seq![(end - start) as u8] + b@.subrange(start as int, start as int) =~= seq![
            (end - start) as u8,
        ]);
        let mut k: usize = start;
        while k < end
            invariant
                self.wf(),
                start <= k <= end <= b@.len(),
                self.pos == base + 1 + (k - start),
                base + 1 + (end - start) <= ob.len(),
                written(
                    self.buf@,
                    ob,
                    base,
                    seq![(end - start) as u8] + b@.subrange(start as int, k as int),
                ),
            decreases end - k,
        {
            let ghost c1 = self.buf@;
            self.put(b[k]);
            proof {
                let d1 = seq![(end - start) as u8] + b@.subrange(start as int, k as int);
                lemma_written_then(c1, self.buf@, ob, base, d1, seq![b@[k as int]]);
                assert(d1 + seq![b@[k as int]] =~= seq![(end - start) as u8] + b@.subrange(
                    start as int,
                    k + 1,
                ));
            }
            k = k + 1;
        }
    }

    /// Writes a domain name as its '.'-separated labels, each as a length
    /// byte and its bytes, then a zero byte. Nothing is written when a label
    /// is longer than 255 bytes or the whole name does not fit.
    pub fn write_name(&mut self, name: &str) -> (r: Result<(), DnsError>)
        requires
            old(self).wf(),
        ensures
            final(self).wf(),
            !labels_fit(labels_of(encode_utf8(name@))) ==> r == Err::<(), DnsError>(
                DnsError::LabelTooLong,
            ) && *final(self) == *old(self),
            labels_fit(labels_of(encode_utf8(name@))) && old(self).cursor()
                + name_wire(encode_utf8(name@)).len() > old(self).bytes().len() ==> r == Err::<
                (),
                DnsError,
            >(DnsError::EndOfBuffer) && *final(self) == *old(self),
            labels_fit(labels_of(encode_utf8(name@))) && old(self).cursor()
                + name_wire(encode_utf8(name@)).len() <= old(self).bytes().len() ==> r is Ok
                && final(self).bytes() == splice(
                old(self).bytes(),
                old(self).cursor(),
                name_wire(encode_utf8(name@)),
            ) && final(self).cursor() == old(self).cursor() + name_wire(encode_utf8(name@)).len(),
    {
        let b = name.as_bytes();
        if !name_fits(b) {
            return Err(DnsError::LabelTooLong);
        }
        proof {
            lemma_wire_len(b@, 0, 0);
        }
        if self.buf.len() - self.pos < 2 || b.len() > self.buf.len() - self.pos - 2 {
            return Err(DnsError::EndOfBuffer);
        }
        let ghost ob = self.buf@;
        let ghost base = self.pos as int;
        let ghost w = name_wire(b@);
        let ghost mut wpre: Seq<u8> = seq![];
        let mut start: usize = 0;
        let mut i: usize = 0;
        assert(written(self.buf@, ob, base, wpre));
        while i < b.len()
            invariant
                self.wf(),
                start <= i <= b@.len(),
                self.pos == base + start,
                base + b@.len() + 2 <= ob.len(),
                wpre.len() == start,
                written(self.buf@, ob, base, wpre),
                w == wpre + labels_wire(labels_scan(b@, start as int, i as int)),
                labels_fit(labels_scan(b@, start as int, i as int)),
            decreases b.len() - i,
        {
            if b[i] == 46u8 {
                let ghost ls = labels_scan(b@, start as int, i as int);
                let ghost l = b@.subrange(start as int, i as int);
                let ghost rest = labels_scan(b@, i + 1, i + 1);
                proof {
                    assert(ls == seq![l] + rest);
                    assert(ls[0] == l);
                    assert(ls.drop_first() =~= rest);
                    assert forall|k: int| 0 <= k < rest.len() implies #[trigger] rest[k].len()
                        <= 255 by {
                        assert(rest[k] == ls[k + 1]);
                    }
                }
                let ghost c1 = self.buf@;
                self.put_label(b, start, i);
                proof {
                    let piece = seq![(i - start) as u8] + l;
                    lemma_written_then(c1, self.buf@, ob, base, wpre, piece);
                    assert(w =~= (wpre + piece) + labels_wire(rest));
                    wpre = wpre + piece;
                }
                start = i + 1;
            }
            i = i + 1;
        }
        let ghost ls = labels_scan(b@, start as int, i as int);
        let ghost l = b@.subrange(start as int, i as int);
        proof {
            assert(ls[0] == l);
            assert(ls.drop_first() =~= seq![]);
        }
        let ghost c1 = self.buf@;
        self.put_label(b, start, b.len());
        proof {
            let piece = seq![(i - start) as u8] + l;
            lemma_written_then(c1, self.buf@, ob, base, wpre, piece);
            assert(labels_wire(ls.drop_first()) == seq![0u8]);
            assert(w =~= (wpre + piece) + seq![0u8]);
            wpre = wpre + piece;
        }
        let ghost c2 = self.buf@;
        self.put(0);
        proof {
            lemma_written_then(c2, self.buf@, ob, base, wpre, seq![0u8]);
            lemma_written_splice(self.buf@, ob, base, w);
        }
        Ok(())
    }
}

} // verus!
