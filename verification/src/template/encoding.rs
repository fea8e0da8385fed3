use vstd::prelude::*;
use vstd::utf8::*;

verus! {

/// A position up to which a well-formed text is itself well-formed lies
/// between two characters.
pub proof fn lemma_valid_prefix_is_boundary(bytes: Seq<u8>, index: int)
    requires
        valid_utf8(bytes),
        0 <= index <= bytes.len(),
        valid_utf8(bytes.subrange(0, index)),
    ensures
        is_char_boundary(bytes, index),
    decreases bytes.len(),
{
    if index > 0 {
        let prefix = bytes.subrange(0, index);
        let width = length_of_first_scalar(bytes);
        assert(prefix[0] == bytes[0]);
        assert(valid_first_scalar(prefix));
        assert(width == length_of_first_scalar(prefix));
        assert(width <= index);
        assert(pop_first_scalar(prefix) =~= pop_first_scalar(bytes).subrange(0, index - width));
        lemma_valid_prefix_is_boundary(pop_first_scalar(bytes), index - width);
    }
}

/// The position after a byte below 0x80 that starts a character lies between
/// two characters: such a byte is a whole character.
pub proof fn lemma_boundary_after_ascii(bytes: Seq<u8>, index: int)
    requires
        valid_utf8(bytes),
        0 <= index < bytes.len(),
        bytes[index] < 0x80,
    ensures
        is_char_boundary(bytes, index),
        is_char_boundary(bytes, index + 1),
{
    is_char_boundary_iff_not_is_continuation_byte(bytes, index);
    valid_utf8_split(bytes, index);
    let suffix = bytes.subrange(index, bytes.len() as int);
    assert(suffix[0] == bytes[index]);
    assert(valid_first_scalar(suffix));
    assert(length_of_first_scalar(suffix) == 1);
    assert(partial_valid_utf8(bytes, index));
    partial_valid_utf8_extend(bytes, index);
    lemma_valid_prefix_is_boundary(bytes, index + 1);
}

/// Where a well-formed text continues, within a longer well-formed text,
/// with the first byte of a well-formed text, a character starts.
pub proof fn lemma_boundary_at_start_of_text(bytes: Seq<u8>, index: int, text: Seq<u8>)
    requires
        valid_utf8(bytes),
        valid_utf8(text),
        0 <= index < bytes.len(),
        text.len() > 0,
        bytes[index] == text[0],
    ensures
        is_char_boundary(bytes, index),
{
    is_char_boundary_start_end_of_seq(text);
    is_char_boundary_iff_not_is_continuation_byte(text, 0);
    is_char_boundary_iff_not_is_continuation_byte(bytes, index);
}

/// The first character of a text ends between two characters.
pub proof fn lemma_boundary_after_first(text: Seq<char>)
    requires
        text.len() > 0,
    ensures
        is_char_boundary(encode_utf8(text), encode_scalar(text[0] as u32).len() as int),
        encode_utf8(text).subrange(
            encode_scalar(text[0] as u32).len() as int,
            encode_utf8(text).len() as int,
        ) == encode_utf8(text.drop_first()),
{
    let bytes = encode_utf8(text);
    let width = encode_scalar(text[0] as u32).len() as int;
    encode_utf8_valid_utf8(text);
    encode_utf8_first_scalar(text);
    assert(bytes.subrange(width, bytes.len() as int) =~= encode_utf8(text.drop_first()));
    assert(bytes.subrange(0, width) =~= encode_scalar(text[0] as u32));
    assert(pop_first_scalar(bytes) == encode_utf8(text.drop_first()));
    encode_utf8_valid_utf8(text.drop_first());
    is_char_boundary_start_end_of_seq(pop_first_scalar(bytes));
    reveal_with_fuel(is_char_boundary, 2);
}

/// The number of bytes that encode a character.
pub(crate) fn width_of(character: char) -> (width: usize)
    ensures
        width == encode_scalar(character as u32).len(),
        1 <= width <= 4,
{
    proof {
        char_is_scalar(character);
    }
    let code = character as u32;
    if code < 0x80 {
        1
    } else if code < 0x800 {
        2
    } else if code < 0x10000 {
        3
    } else {
        4
    }
}

} // verus!
