//! Parts of a text between two positions in its bytes.

use vstd::prelude::*;
use vstd::string::StringSliceAdditionalSpecFns;
use vstd::utf8::{
    encode_utf8_valid_utf8, is_char_boundary, is_char_boundary_iff_not_is_continuation_byte,
    is_char_boundary_start_end_of_seq, pop_first_scalar, valid_utf8, valid_utf8_split,
};

verus! {

/// The part of a text between two byte positions.
#[derive(Clone, Copy, Debug, PartialEq, Eq)]
pub struct Span {
    pub start: usize,
    pub end: usize,
}

impl Span {
    /// Whether the span lies in `bytes`.
    pub open spec fn within(self, bytes: Seq<u8>) -> bool {
        self.start <= self.end <= bytes.len()
    }

    /// The bytes of the span.
    pub open spec fn of(self, bytes: Seq<u8>) -> Seq<u8> {
        bytes.subrange(self.start as int, self.end as int)
    }
}

/// The largest byte that is a character of its own.
pub const ASCII_MAX: u8 = 0x7f;

/// A character starts at every ASCII byte.
pub proof fn lemma_boundary_at_ascii(bytes: Seq<u8>, i: int)
    requires
        valid_utf8(bytes),
        0 <= i < bytes.len(),
        bytes[i] <= ASCII_MAX,
    ensures
        is_char_boundary(bytes, i),
{
    is_char_boundary_iff_not_is_continuation_byte(bytes, i);
}

/// A character ends behind every ASCII byte.
pub proof fn lemma_boundary_after_ascii(bytes: Seq<u8>, i: int)
    requires
        valid_utf8(bytes),
        0 <= i < bytes.len(),
        bytes[i] <= ASCII_MAX,
    ensures
        is_char_boundary(bytes, i + 1),
{
    lemma_boundary_at_ascii(bytes, i);
    valid_utf8_split(bytes, i);
    let tail = bytes.subrange(i, bytes.len() as int);
    assert(tail[0] == bytes[i]);
    let rest = pop_first_scalar(tail);
    assert(valid_utf8(rest));
    assert(rest =~= bytes.subrange(i + 1, bytes.len() as int));
    if i + 1 == bytes.len() {
        is_char_boundary_start_end_of_seq(bytes);
    } else {
        assert(rest[0] == bytes[i + 1]);
        assert(is_char_boundary(rest, 0));
        is_char_boundary_iff_not_is_continuation_byte(rest, 0);
        is_char_boundary_iff_not_is_continuation_byte(bytes, i + 1);
    }
}

/// The part of `s` between the byte positions `from` and `to`.
pub fn substring<'a>(s: &'a str, from: usize, to: usize) -> (r: &'a str)
    requires
        from <= to <= s.spec_bytes().len(),
        is_char_boundary(s.spec_bytes(), from as int),
        is_char_boundary(s.spec_bytes(), to as int),
    ensures
        r.spec_bytes() == s.spec_bytes().subrange(from as int, to as int),
{
    let ghost bytes = s.spec_bytes();
    proof {
        encode_utf8_valid_utf8(s@);
    }
    let (_, tail) = s.split_at(from);
    proof {
        encode_utf8_valid_utf8(tail@);
        let t = tail.spec_bytes();
        assert(t == bytes.subrange(from as int, bytes.len() as int));
        if to == bytes.len() {
            is_char_boundary_start_end_of_seq(t);
        } else {
            assert(t[to - from] == bytes[to as int]);
            is_char_boundary_iff_not_is_continuation_byte(bytes, to as int);
            is_char_boundary_iff_not_is_continuation_byte(t, to - from);
        }
    }
    let (r, _) = tail.split_at(to - from);
    assert(r.spec_bytes() =~= bytes.subrange(from as int, to as int));
    r
}

} // verus!
