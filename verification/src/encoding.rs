//! How byte offsets relate to the characters of a UTF-8 string.

use vstd::prelude::*;
use vstd::utf8::*;

verus! {

/// Whether `start .. end` is a range of `text` that cuts no character in two.
/// `text` is the UTF-8 encoding of a string.
pub open spec fn span_fits(text: Seq<u8>, start: int, end: int) -> bool {
    &&& 0 <= start <= end <= text.len()
    &&& is_char_boundary(text, start)
    &&& is_char_boundary(text, end)
}

/// Encoding distributes over concatenation.
pub proof fn lemma_encode_concat(a: Seq<char>, b: Seq<char>)
    ensures
        encode_utf8(a + b) == encode_utf8(a) + encode_utf8(b),
    decreases a.len(),
{
    if a.len() == 0 {
        assert(a + b =~= b);
        assert(encode_utf8(a) + encode_utf8(b) =~= encode_utf8(b));
    } else {
        lemma_encode_concat(a.drop_first(), b);
        assert((a + b).drop_first() =~= a.drop_first() + b);
        assert((a + b)[0] == a[0]);
        assert(encode_utf8(a + b) =~= encode_utf8(a) + encode_utf8(b));
    }
}

/// A byte below 0x80 is a whole character: there is a boundary before it and
/// one after it.
pub proof fn lemma_ascii_boundaries(text: Seq<u8>, i: int)
    requires
        valid_utf8(text),
        0 <= i < text.len(),
        text[i] < 0x80,
    ensures
        is_char_boundary(text, i),
        is_char_boundary(text, i + 1),
{
    is_char_boundary_iff_is_leading_byte(text, i);
    assert(is_leading_byte_width_1(text[i]));
    if i + 1 == text.len() {
        is_char_boundary_start_end_of_seq(text);
    } else {
        valid_utf8_split(text, i);
        let rest = text.subrange(i, text.len() as int);
        assert(rest[0] == text[i]);
        assert(valid_first_scalar(rest) && valid_utf8(pop_first_scalar(rest)));
        let after = pop_first_scalar(rest);
        assert(after =~= text.subrange(i + 1, text.len() as int));
        assert(valid_first_scalar(after));
        assert(after[0] == text[i + 1]);
        is_char_boundary_iff_not_is_continuation_byte(text, i + 1);
    }
}

/// A boundary of the text that lies at or after another boundary is a
/// boundary of the text that starts there.
pub proof fn lemma_boundary_in_suffix(text: Seq<u8>, start: int, end: int)
    requires
        valid_utf8(text),
        span_fits(text, start, end),
    ensures
        valid_utf8(text.subrange(start, text.len() as int)),
        is_char_boundary(text.subrange(start, text.len() as int), end - start),
{
    valid_utf8_split(text, start);
    let rest = text.subrange(start, text.len() as int);
    if end - start == rest.len() || end == start {
        is_char_boundary_start_end_of_seq(rest);
    } else {
        assert(rest[end - start] == text[end]);
        is_char_boundary_iff_not_is_continuation_byte(text, end);
        is_char_boundary_iff_not_is_continuation_byte(rest, end - start);
    }
}

} // verus!
