//! Cutting text out of a source buffer by byte offsets.
//!
//! Offsets handed out by the reader always fall between characters: every
//! token starts and ends next to an ASCII byte or at an end of the buffer.
//! The lemmas here turn that observation into the character-boundary facts
//! that slicing a `str` needs.

use vstd::prelude::*;
use vstd::string::*;
use vstd::utf8::*;

verus! {

/// A source buffer at the byte level.
pub open spec fn bytes_of(src: &str) -> Seq<u8> {
    src.spec_bytes()
}

/// The bytes of a `str` are well-formed UTF-8.
pub proof fn lemma_source_is_utf8(src: &str)
    ensures
        valid_utf8(bytes_of(src)),
        is_char_boundary(bytes_of(src), 0),
{
    encode_utf8_valid_utf8(src@);
    is_char_boundary_start_end_of_seq(bytes_of(src));
}

/// An offset that holds an ASCII byte, or is the end of the buffer, falls
/// between characters.
pub proof fn lemma_boundary_at_ascii(s: Seq<u8>, p: int)
    requires
        valid_utf8(s),
        0 <= p <= s.len(),
        p < s.len() ==> s[p] < 0x80,
    ensures
        is_char_boundary(s, p),
{
    if p < s.len() {
        is_char_boundary_iff_not_is_continuation_byte(s, p);
    } else {
        is_char_boundary_start_end_of_seq(s);
    }
}

/// The offset after an ASCII byte that starts a character falls between
/// characters.
pub proof fn lemma_boundary_after_ascii(s: Seq<u8>, p: int)
    requires
        valid_utf8(s),
        0 <= p < s.len(),
        is_char_boundary(s, p),
        s[p] < 0x80,
    ensures
        is_char_boundary(s, p + 1),
{
    if p + 1 < s.len() {
        valid_utf8_split(s, p);
        let tail = s.subrange(p, s.len() as int);
        assert(tail[0] == s[p]);
        let rest = pop_first_scalar(tail);
        assert(valid_utf8(tail));
        assert(length_of_first_scalar(tail) == 1);
        assert(valid_utf8(rest));
        assert(rest.len() > 0);
        assert(rest[0] == s[p + 1]);
        assert(valid_first_scalar(rest));
        assert(!is_continuation_byte(s[p + 1]));
        is_char_boundary_iff_not_is_continuation_byte(s, p + 1);
    } else {
        is_char_boundary_start_end_of_seq(s);
    }
}

/// Offsets that fall between characters keep doing so when they are moved
/// over a run of ASCII bytes.
pub proof fn lemma_boundary_after_ascii_run(s: Seq<u8>, from: int, to: int)
    requires
        valid_utf8(s),
        0 <= from <= to <= s.len(),
        is_char_boundary(s, from),
        forall|i: int| from <= i < to ==> #[trigger] s[i] < 0x80,
    ensures
        is_char_boundary(s, to),
    decreases to - from,
{
    if from < to {
        lemma_boundary_after_ascii_run(s, from, to - 1);
        lemma_boundary_after_ascii(s, to - 1);
    }
}

/// The text of `src` between the byte offsets `start` and `end`.
pub(crate) fn substring(src: &str, start: usize, end: usize) -> (text: String)
    requires
        start <= end <= bytes_of(src).len(),
        is_char_boundary(bytes_of(src), start as int),
        is_char_boundary(bytes_of(src), end as int),
    ensures
        encode_utf8(text@) == bytes_of(src).subrange(start as int, end as int),
{
    let (head, _) = src.split_at(end);
    proof {
        let s = bytes_of(src);
        let h = bytes_of(head);
        lemma_source_is_utf8(src);
        lemma_source_is_utf8(head);
        assert(h == s.subrange(0, end as int));
        if start < end {
            is_char_boundary_iff_not_is_continuation_byte(s, start as int);
            assert(h[start as int] == s[start as int]);
            is_char_boundary_iff_not_is_continuation_byte(h, start as int);
        } else {
            is_char_boundary_start_end_of_seq(h);
        }
    }
    let (_, tail) = head.split_at(start);
    proof {
        assert(bytes_of(tail) == bytes_of(src).subrange(start as int, end as int));
    }
    tail.to_owned()
}

} // verus!
