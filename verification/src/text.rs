//! Text on the wire: UTF-8 bytes on one side, `str` and `String` on the other.
//!
//! The protocol is cut at ASCII bytes (space, carriage return, line feed), and
//! in well-formed UTF-8 every ASCII byte is a character of its own. The lemmas
//! here turn that into the character boundaries that slicing a `str` needs, and
//! the helpers compare and cut string slices through their bytes.

use vstd::prelude::*;
use vstd::string::*;
use vstd::utf8::*;

verus! {

/// Decodes `bytes` as UTF-8 text without copying.
///
/// Wraps `core::str::from_utf8`, which succeeds exactly on well-formed UTF-8
/// and then hands back the very same bytes, seen as a string slice.
#[verifier::external_body]
pub(crate) fn utf8_to_str(bytes: &[u8]) -> (text: Option<&str>)
    ensures
        text is Some <==> valid_utf8(bytes@),
        text matches Some(s) ==> s.spec_bytes() == bytes@,
{
    core::str::from_utf8(bytes).ok()
}

/// A byte that encodes a character by itself.
pub open spec fn is_ascii_byte(b: u8) -> bool {
    b < 0x80
}

/// In well-formed UTF-8 a character starts at every ASCII byte, and another
/// starts (or the text ends) right after it.
pub proof fn lemma_ascii_byte_boundaries(bytes: Seq<u8>, p: int)
    requires
        valid_utf8(bytes),
        0 <= p < bytes.len(),
        is_ascii_byte(bytes[p]),
    ensures
        is_char_boundary(bytes, p),
        is_char_boundary(bytes, p + 1),
{
    broadcast use group_utf8_lib;

    assert(is_char_boundary(bytes, p)) by {
        is_char_boundary_iff_not_is_continuation_byte(bytes, p);
    }
    let tail = bytes.subrange(p, bytes.len() as int);
    assert(valid_utf8(tail));
    assert(is_leading_byte_width_1(tail[0]));
    let rest = pop_first_scalar(tail);
    assert(valid_utf8(rest));
    assert(rest =~= bytes.subrange(p + 1, bytes.len() as int));
    if p + 1 < bytes.len() {
        assert(valid_first_scalar(rest));
        assert(rest[0] == bytes[p + 1]);
        assert(!is_continuation_byte(bytes[p + 1]));
    }
}

/// Encoding goes through concatenation.
pub proof fn lemma_encode_concat(a: Seq<char>, b: Seq<char>)
    ensures
        encode_utf8(a + b) == encode_utf8(a) + encode_utf8(b),
    decreases a.len(),
{
    if a.len() == 0 {
        assert(a + b =~= b);
        assert(encode_utf8(a) + encode_utf8(b) =~= encode_utf8(b));
    } else {
        lemma_encode_concat(a.drop_first(), b);
        assert((a + b).drop_first() =~= a.drop_first() + b);
        assert(encode_utf8(a + b) =~= encode_utf8(a) + encode_utf8(b));
    }
}

/// Two texts with the same encoding are the same text.
pub proof fn lemma_encode_injective(a: Seq<char>, b: Seq<char>)
    requires
        encode_utf8(a) == encode_utf8(b),
    ensures
        a == b,
{
    encode_utf8_decode_utf8(a);
    encode_utf8_decode_utf8(b);
}

/// A position at which text may be cut: an end of `bytes`, or a position with
/// an ASCII byte on one of its sides.
pub open spec fn cut_point(bytes: Seq<u8>, at: int) -> bool {
    &&& 0 <= at <= bytes.len()
    &&& (at == 0 || at == bytes.len() || is_ascii_byte(bytes[at]) || is_ascii_byte(bytes[at - 1]))
}

/// Cutting well-formed UTF-8 at a cut point splits no character.
pub proof fn lemma_cut_point_is_boundary(bytes: Seq<u8>, at: int)
    requires
        valid_utf8(bytes),
        cut_point(bytes, at),
    ensures
        is_char_boundary(bytes, at),
{
    if at == 0 || at == bytes.len() {
        is_char_boundary_start_end_of_seq(bytes);
    } else if is_ascii_byte(bytes[at]) {
        lemma_ascii_byte_boundaries(bytes, at);
    } else {
        lemma_ascii_byte_boundaries(bytes, at - 1);
    }
}

/// What stands between two cut points of well-formed UTF-8 is well-formed
/// UTF-8, and encoding what it decodes to gives it back.
pub proof fn lemma_slice_is_text(bytes: Seq<u8>, lo: int, hi: int)
    requires
        valid_utf8(bytes),
        lo <= hi,
        cut_point(bytes, lo),
        cut_point(bytes, hi),
    ensures
        valid_utf8(bytes.subrange(lo, hi)),
        encode_utf8(decode_utf8(bytes.subrange(lo, hi))) == bytes.subrange(lo, hi),
{
    let front = bytes.subrange(0, hi);
    lemma_cut_point_is_boundary(bytes, lo);
    lemma_cut_point_is_boundary(bytes, hi);
    valid_utf8_split(bytes, hi);
    if lo < hi {
        is_char_boundary_iff_not_is_continuation_byte(bytes, lo);
        is_char_boundary_iff_not_is_continuation_byte(front, lo);
    } else {
        is_char_boundary_start_end_of_seq(front);
    }
    valid_utf8_split(front, lo);
    assert(front.subrange(lo, front.len() as int) =~= bytes.subrange(lo, hi));
    decode_utf8_encode_utf8(bytes.subrange(lo, hi));
}

/// The part of `s` between the byte positions `lo` and `hi`.
pub(crate) fn slice_str<'a>(s: &'a str, lo: usize, hi: usize) -> (part: &'a str)
    requires
        lo <= hi,
        cut_point(s.spec_bytes(), lo as int),
        cut_point(s.spec_bytes(), hi as int),
    ensures
        part.spec_bytes() == s.spec_bytes().subrange(lo as int, hi as int),
        part@ == decode_utf8(s.spec_bytes().subrange(lo as int, hi as int)),
{
    let ghost whole = s.spec_bytes();
    proof {
        encode_utf8_valid_utf8(s@);
        lemma_cut_point_is_boundary(whole, lo as int);
        lemma_cut_point_is_boundary(whole, hi as int);
    }
    let (head, _) = s.split_at(hi);
    proof {
        let front = head.spec_bytes();
        encode_utf8_valid_utf8(head@);
        if lo < hi {
            is_char_boundary_iff_not_is_continuation_byte(whole, lo as int);
            is_char_boundary_iff_not_is_continuation_byte(front, lo as int);
        } else {
            is_char_boundary_start_end_of_seq(front);
        }
    }
    let (_, part) = head.split_at(lo);
    proof {
        assert(part.spec_bytes() =~= whole.subrange(lo as int, hi as int));
        encode_utf8_decode_utf8(part@);
    }
    part
}

/// Whether two string slices hold the same text.
pub(crate) fn str_eq(a: &str, b: &str) -> (same: bool)
    ensures
        same == (a@ == b@),
{
    let x = a.as_bytes();
    let y = b.as_bytes();
    if x.len() != y.len() {
        return false;
    }
    let mut i: usize = 0;
    while i < x.len()
        invariant
            x@.len() == y@.len(),
            0 <= i <= x@.len(),
            x@ == a.spec_bytes(),
            y@ == b.spec_bytes(),
            forall|j: int| 0 <= j < i ==> x@[j] == y@[j],
        decreases x@.len() - i,
    {
        if x[i] != y[i] {
            return false;
        }
        i += 1;
    }
    proof {
        assert(x@ =~= y@);
        lemma_encode_injective(a@, b@);
    }
    true
}

/// What follows `prefix` in `s`, where `s` begins with it.
pub(crate) fn strip_prefix<'a>(s: &'a str, prefix: &str) -> (rest: Option<&'a str>)
    requires
        is_ascii_chars(prefix@),
    ensures
        rest is Some <==> prefix@.is_prefix_of(s@),
        rest matches Some(r) ==> r@ == s@.skip(prefix@.len() as int),
{
    broadcast use group_utf8_lib;

    let x = s.as_bytes();
    let y = prefix.as_bytes();
    let k = y.len();
    proof {
        if prefix@.is_prefix_of(s@) {
            assert(s@ =~= prefix@ + s@.skip(prefix@.len() as int));
            lemma_encode_concat(prefix@, s@.skip(prefix@.len() as int));
            assert(x@.len() >= k);
            assert(x@.subrange(0, k as int) =~= y@);
        }
    }
    if x.len() < k {
        return None;
    }
    let mut i: usize = 0;
    while i < k
        invariant
            k == y@.len(),
            k <= x@.len(),
            0 <= i <= k,
            prefix@.is_prefix_of(s@) ==> x@.subrange(0, k as int) == y@,
            forall|j: int| 0 <= j < i ==> x@[j] == y@[j],
        decreases k - i,
    {
        if x[i] != y[i] {
            proof {
                if prefix@.is_prefix_of(s@) {
                    assert(x@.subrange(0, k as int)[i as int] == y@[i as int]);
                }
            }
            return None;
        }
        i += 1;
    }
    proof {
        assert(x@.subrange(0, k as int) =~= y@);
        if k > 0 {
            assert(x@[k - 1] == y@[k - 1]);
            assert(is_ascii_byte(x@[k - 1]));
        }
        lemma_cut_point_is_boundary(x@, k as int);
        decode_utf8_split(x@, k as int);
    }
    let r = slice_str(s, k, x.len());
    proof {
        assert(decode_utf8(x@) == s@);
        assert(decode_utf8(y@) == prefix@);
        assert(decode_utf8(r.spec_bytes()) == r@);
        assert(s@ =~= prefix@ + r@);
        assert(r@ =~= s@.skip(prefix@.len() as int));
    }
    Some(r)
}

} // verus!
