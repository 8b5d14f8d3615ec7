use crate::protocol::bytepacket::utf8_text;
use vstd::prelude::*;
use vstd::string::StringExecFns;
use vstd::utf8::*;

verus! {

/// The byte that separates the two fields of a rule line.
pub const FIELD_SEPARATOR: u8 = 32;

/// `i` is the place of the one and only space in `b`.
pub open spec fn sole_space_at(b: Seq<u8>, i: int) -> bool {
    &&& 0 <= i < b.len()
    &&& b[i] == FIELD_SEPARATOR
    &&& forall|j: int| 0 <= j < b.len() && j != i ==> b[j] != FIELD_SEPARATOR
}

/// Splitting valid UTF-8 around a space gives valid UTF-8 on both sides.
proof fn lemma_split_at_space(b: Seq<u8>, i: int)
    requires
        valid_utf8(b),
        0 <= i < b.len(),
        b[i] == FIELD_SEPARATOR,
    ensures
        valid_utf8(b.subrange(0, i)),
        valid_utf8(b.subrange(i + 1, b.len() as int)),
{
    is_char_boundary_iff_not_is_continuation_byte(b, i);
    valid_utf8_split(b, i);
    let u = b.subrange(i, b.len() as int);
    assert(u[0] == FIELD_SEPARATOR);
    assert(pop_first_scalar(u) =~= b.subrange(i + 1, b.len() as int));
}

/// The two fields of a rule line `<address> <name>`: the text before and
/// after its single space. `None` when the line has no space or more than
/// one.
pub fn rule_fields(line: &str) -> (r: Option<(String, String)>)
    ensures
        match r {
            Some((addr, name)) => exists|i: int|
                sole_space_at(encode_utf8(line@), i) && encode_utf8(addr@) == encode_utf8(
                    line@,
                ).subrange(0, i) && encode_utf8(name@) == encode_utf8(line@).subrange(
                    i + 1,
                    encode_utf8(line@).len() as int,
                ),
            None => forall|i: int| !sole_space_at(encode_utf8(line@), i),
        },
{
    let b = line.as_bytes();
    let ghost bs = b@;
    let mut first: usize = b.len();
    let mut i: usize = 0;
    while i < b.len()
        invariant
            i <= b@.len(),
            bs == b@,
            bs == encode_utf8(line@),
            first == b@.len() || (first < i && b@[first as int] == FIELD_SEPARATOR),
            forall|j: int| 0 <= j < i && j != first ==> b@[j] != FIELD_SEPARATOR,
        decreases b.len() - i,
    {
        if b[i] == FIELD_SEPARATOR {
            if first < b.len() {
                assert forall|k: int| !sole_space_at(bs, k) by {
                    if sole_space_at(bs, k) {
                        assert(bs[first as int] == FIELD_SEPARATOR);
                        assert(bs[i as int] == FIELD_SEPARATOR);
                    }
                }
                return None;
            }
            first = i;
        }
        i = i + 1;
    }
    if first == b.len() {
        assert forall|k: int| !sole_space_at(bs, k) by {
            if sole_space_at(bs, k) {
                assert(bs[k] == FIELD_SEPARATOR);
            }
        }
        return None;
    }
    proof {
        encode_utf8_valid_utf8(line@);
        lemma_split_at_space(bs, first as int);
    }
    let before = vstd::slice::slice_subrange(b, 0, first);
    let after = vstd::slice::slice_subrange(b, first + 1, b.len());
    let addr = match utf8_text(before) {
        Some(t) => t,
        None => return None,
    };
    let name = match utf8_text(after) {
        Some(t) => t,
        None => return None,
    };
    proof {
        decode_utf8_encode_utf8(before@);
        decode_utf8_encode_utf8(after@);
        assert(sole_space_at(bs, first as int));
    }
    Some((String::from_str(addr), String::from_str(name)))
}

} // verus!
