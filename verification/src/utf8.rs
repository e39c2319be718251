//! Byte positions of characters in UTF-8 text.

use vstd::prelude::*;
use vstd::utf8::*;

verus! {

/// Number of bytes that the characters take.
pub open spec fn byte_len(chars: Seq<char>) -> int {
    encode_utf8(chars).len() as int
}

/// Byte position of the character number `i`.
pub open spec fn byte_pos(chars: Seq<char>, i: int) -> int {
    byte_len(chars.take(i))
}

/// Number of bytes that a character takes.
pub fn char_width(c: char) -> (width: usize)
    ensures
        width == encode_scalar(c as u32).len(),
        1 <= width <= 4,
{
    let scalar: u32 = c as u32;
    if scalar < 0x80 {
        1
    } else if scalar < 0x800 {
        2
    } else if scalar < 0x10000 {
        3
    } else {
        4
    }
}

/// Text encodes part by part.
pub proof fn lemma_encode_concat(a: Seq<char>, b: Seq<char>)
    ensures
        encode_utf8(a + b) == encode_utf8(a) + encode_utf8(b),
    decreases a.len(),
{
    if a.len() == 0 {
        assert(a + b =~= b);
        assert(encode_utf8(a) + encode_utf8(b) =~= encode_utf8(b));
    } else {
        assert((a + b).drop_first() =~= a.drop_first() + b);
        lemma_encode_concat(a.drop_first(), b);
        assert(encode_utf8(a + b) =~= encode_utf8(a) + encode_utf8(b));
    }
}

/// Different texts have different encodings.
pub proof fn lemma_encode_injective(a: Seq<char>, b: Seq<char>)
    requires
        encode_utf8(a) == encode_utf8(b),
    ensures
        a == b,
{
    encode_utf8_decode_utf8(a);
    encode_utf8_decode_utf8(b);
}

/// One more character moves the byte position on by its width.
pub proof fn lemma_byte_pos_step(chars: Seq<char>, i: int)
    requires
        0 <= i < chars.len(),
    ensures
        byte_pos(chars, i + 1) == byte_pos(chars, i) + encode_scalar(chars[i] as u32).len(),
{
    let one = seq![chars[i]];
    assert(chars.take(i + 1) =~= chars.take(i) + one);
    lemma_encode_concat(chars.take(i), one);
    assert(one.drop_first() =~= Seq::<char>::empty());
    reveal_with_fuel(encode_utf8, 2);
}

/// Byte positions increase with the characters.
pub proof fn lemma_byte_pos_monotonic(chars: Seq<char>, i: int, j: int)
    requires
        0 <= i <= j <= chars.len(),
    ensures
        byte_pos(chars, i) <= byte_pos(chars, j),
        i < j ==> byte_pos(chars, i) < byte_pos(chars, j),
        0 <= byte_pos(chars, i),
        byte_pos(chars, j) <= byte_len(chars),
        byte_pos(chars, chars.len() as int) == byte_len(chars),
    decreases j - i,
{
    assert(chars.take(chars.len() as int) =~= chars);
    if i < j {
        lemma_byte_pos_step(chars, j - 1);
        lemma_byte_pos_monotonic(chars, i, j - 1);
    }
    let rest = chars.skip(j);
    assert(chars =~= chars.take(j) + rest);
    lemma_encode_concat(chars.take(j), rest);
}

/// Different characters have different byte positions.
pub proof fn lemma_byte_pos_injective(chars: Seq<char>, i: int, j: int)
    requires
        0 <= i <= chars.len(),
        0 <= j <= chars.len(),
        byte_pos(chars, i) == byte_pos(chars, j),
    ensures
        i == j,
{
    if i < j {
        lemma_byte_pos_monotonic(chars, i, j);
    } else if j < i {
        lemma_byte_pos_monotonic(chars, j, i);
    }
}

/// A range of characters encodes to the range of bytes between their byte
/// positions.
pub proof fn lemma_encode_subrange(chars: Seq<char>, i: int, j: int)
    requires
        0 <= i <= j <= chars.len(),
    ensures
        0 <= byte_pos(chars, i) <= byte_pos(chars, j) <= byte_len(chars),
        encode_utf8(chars).subrange(byte_pos(chars, i), byte_pos(chars, j)) == encode_utf8(
            chars.subrange(i, j),
        ),
{
    lemma_byte_pos_monotonic(chars, i, j);
    let head = chars.take(i);
    let mid = chars.subrange(i, j);
    let tail = chars.skip(j);
    assert(chars =~= chars.take(j) + tail);
    assert(chars.take(j) =~= head + mid);
    lemma_encode_concat(chars.take(j), tail);
    lemma_encode_concat(head, mid);
    assert(encode_utf8(chars).subrange(byte_pos(chars, i), byte_pos(chars, j)) =~= encode_utf8(
        mid,
    ));
}

/// The byte position of a character is a character boundary.
pub proof fn lemma_byte_pos_is_boundary(chars: Seq<char>, i: int)
    requires
        0 <= i <= chars.len(),
    ensures
        is_char_boundary(encode_utf8(chars), byte_pos(chars, i)),
    decreases i,
{
    let bytes = encode_utf8(chars);
    encode_utf8_valid_utf8(chars);
    if i == 0 {
        assert(chars.take(0) =~= Seq::<char>::empty());
    } else {
        let rest = chars.drop_first();
        encode_utf8_first_scalar(chars);
        assert(pop_first_scalar(bytes) =~= encode_utf8(rest));
        lemma_byte_pos_is_boundary(rest, i - 1);
        assert(chars.take(i).drop_first() =~= rest.take(i - 1));
        lemma_byte_pos_monotonic(chars, i, i);
    }
}

/// Every character boundary is the byte position of a character, or the end.
pub proof fn lemma_boundary_is_byte_pos(chars: Seq<char>, pos: int) -> (i: int)
    requires
        is_char_boundary(encode_utf8(chars), pos),
    ensures
        0 <= i <= chars.len(),
        byte_pos(chars, i) == pos,
    decreases chars.len(),
{
    let bytes = encode_utf8(chars);
    encode_utf8_valid_utf8(chars);
    if pos == 0 {
        assert(chars.take(0) =~= Seq::<char>::empty());
        0
    } else {
        assert(chars.len() > 0);
        let rest = chars.drop_first();
        encode_utf8_first_scalar(chars);
        assert(pop_first_scalar(bytes) =~= encode_utf8(rest));
        let width = encode_scalar(chars[0] as u32).len() as int;
        let j = lemma_boundary_is_byte_pos(rest, pos - width);
        assert(chars.take(j + 1).drop_first() =~= rest.take(j));
        j + 1
    }
}

/// The part of `text` between two byte positions, or `None` where it would be
/// empty, reach past the end or cut a character.
pub fn slice_text(text: &str, start: usize, end: usize) -> (part: Option<&str>)
    ensures
        match part {
            Some(part) => exists|i: int, j: int|
                #![trigger text@.subrange(i, j)]
                0 <= i < j <= text@.len() && byte_pos(text@, i) == start && byte_pos(text@, j)
                    == end && part@ == text@.subrange(i, j),
            None => forall|i: int, j: int|
                0 <= i < j <= text@.len() ==> !(#[trigger] byte_pos(text@, i) == start
                    && #[trigger] byte_pos(text@, j) == end),
        },
{
    let ghost chars = text@;
    if start >= end || !text.is_char_boundary(start) || !text.is_char_boundary(end) {
        proof {
            assert forall|i: int, j: int| 0 <= i < j <= chars.len() implies !(
            #[trigger] byte_pos(chars, i) == start && #[trigger] byte_pos(chars, j) == end) by {
                lemma_byte_pos_monotonic(chars, i, j);
                lemma_byte_pos_is_boundary(chars, i);
                lemma_byte_pos_is_boundary(chars, j);
            }
        }
        return None;
    }
    let (head, _) = text.split_at(end);
    let ghost i = lemma_boundary_is_byte_pos(chars, start as int);
    let ghost j = lemma_boundary_is_byte_pos(chars, end as int);
    proof {
        if j <= i {
            lemma_byte_pos_monotonic(chars, j, i);
        }
        lemma_encode_subrange(chars, 0, j);
        assert(chars.take(0) =~= Seq::<char>::empty());
        assert(chars.subrange(0, j) =~= chars.take(j));
        lemma_encode_injective(head@, chars.take(j));
        assert(chars.take(j).take(i) =~= chars.take(i));
        lemma_byte_pos_is_boundary(head@, i);
        lemma_encode_subrange(head@, i, j);
        assert(head@.take(j) =~= head@);
        assert(head@.subrange(i, j) =~= chars.subrange(i, j));
    }
    let (_, part) = head.split_at(start);
    proof {
        lemma_encode_injective(part@, chars.subrange(i, j));
    }
    Some(part)
}

} // verus!
