use vstd::prelude::*;
use vstd::string::StringSliceAdditionalSpecFns;
use vstd::utf8::*;

verus! {

/// The byte position at which the character with index `a` starts in the
/// UTF-8 encoding of `cs`: the length of the encoding of the characters
/// before it.
pub open spec fn byte_offset(cs: Seq<char>, a: int) -> int {
    encode_utf8(cs.take(a)).len() as int
}

/// The number of bytes that the UTF-8 encoding of `c` takes.
pub open spec fn utf8_width(c: char) -> int {
    let v = c as u32;
    if v < 0x80 {
        1
    } else if v < 0x800 {
        2
    } else if v < 0x10000 {
        3
    } else {
        4
    }
}

/// Encoding a concatenation concatenates the encodings.
pub proof fn lemma_encode_concat(x: Seq<char>, y: Seq<char>)
    ensures
        encode_utf8(x + y) == encode_utf8(x) + encode_utf8(y),
    decreases x.len(),
{
    if x.len() == 0 {
        assert(x + y =~= y);
        assert(encode_utf8(x) + encode_utf8(y) =~= encode_utf8(y));
    } else {
        assert((x + y).drop_first() =~= x.drop_first() + y);
        lemma_encode_concat(x.drop_first(), y);
        assert(encode_utf8(x + y) =~= encode_utf8(x) + encode_utf8(y));
    }
}

/// The encoding of one character is as long as its width.
pub proof fn lemma_encode_single(c: char)
    ensures
        encode_utf8(seq![c]) == encode_scalar(c as u32),
        encode_scalar(c as u32).len() == utf8_width(c),
{
    assert(seq![c].drop_first() =~= Seq::<char>::empty());
    assert(seq![c][0] == c);
    assert(encode_utf8(Seq::<char>::empty()) =~= Seq::<u8>::empty());
    assert(encode_utf8(seq![c]) == encode_scalar(c as u32) + encode_utf8(seq![c].drop_first()));
    assert(encode_utf8(seq![c]) =~= encode_scalar(c as u32));
    char_is_scalar(c);
}

/// Stepping over one character moves the byte position by its width.
pub proof fn lemma_offset_step(cs: Seq<char>, i: int)
    requires
        0 <= i < cs.len(),
    ensures
        byte_offset(cs, i + 1) == byte_offset(cs, i) + utf8_width(cs[i]),
{
    assert(cs.take(i + 1) =~= cs.take(i) + seq![cs[i]]);
    lemma_encode_concat(cs.take(i), seq![cs[i]]);
    lemma_encode_single(cs[i]);
}

/// Byte positions grow with the character index.
pub proof fn lemma_offset_monotonic(cs: Seq<char>, a: int, b: int)
    requires
        0 <= a <= b <= cs.len(),
    ensures
        byte_offset(cs, a) + (b - a) <= byte_offset(cs, b),
        a < b ==> byte_offset(cs, a) < byte_offset(cs, b),
    decreases b - a,
{
    if a < b {
        lemma_offset_monotonic(cs, a, b - 1);
        lemma_offset_step(cs, b - 1);
    }
}

/// The encoding of `cs` is the encoding of its first `a` characters followed
/// by the encoding of the rest, and the byte position of character `a` is a
/// character boundary of it.
pub proof fn lemma_offset_boundary(cs: Seq<char>, a: int)
    requires
        0 <= a <= cs.len(),
    ensures
        encode_utf8(cs) == encode_utf8(cs.take(a)) + encode_utf8(cs.skip(a)),
        byte_offset(cs, a) <= encode_utf8(cs).len(),
        valid_utf8(encode_utf8(cs)),
        is_char_boundary(encode_utf8(cs), byte_offset(cs, a)),
{
    assert(cs =~= cs.take(a) + cs.skip(a));
    lemma_encode_concat(cs.take(a), cs.skip(a));
    let bytes = encode_utf8(cs);
    encode_utf8_valid_utf8(cs);
    if a == cs.len() {
        assert(cs.take(a) =~= cs);
        is_char_boundary_start_end_of_seq(bytes);
    } else {
        let rest = cs.skip(a);
        encode_utf8_first_scalar(rest);
        let off = byte_offset(cs, a);
        assert(bytes[off] == encode_utf8(rest)[0]);
        is_char_boundary_iff_is_leading_byte(bytes, off);
    }
}

/// The bytes between the positions of characters `a` and `b` encode exactly
/// the characters from `a` up to `b`.
pub proof fn lemma_offset_slice(cs: Seq<char>, a: int, b: int)
    requires
        0 <= a <= b <= cs.len(),
    ensures
        encode_utf8(cs).subrange(byte_offset(cs, a), byte_offset(cs, b)) == encode_utf8(
            cs.subrange(a, b),
        ),
        encode_utf8(cs.take(b)) == encode_utf8(cs).subrange(0, byte_offset(cs, b)),
{
    lemma_offset_boundary(cs, b);
    let pre = cs.take(b);
    assert(pre.take(a) =~= cs.take(a));
    assert(pre.skip(a) =~= cs.subrange(a, b));
    lemma_offset_boundary(pre, a);
    assert(encode_utf8(cs).subrange(0, byte_offset(cs, b)) =~= encode_utf8(pre));
    assert(encode_utf8(cs).subrange(byte_offset(cs, a), byte_offset(cs, b)) =~= encode_utf8(
        pre,
    ).subrange(byte_offset(cs, a), encode_utf8(pre).len() as int));
    assert(encode_utf8(pre).subrange(byte_offset(cs, a), encode_utf8(pre).len() as int)
        =~= encode_utf8(cs.subrange(a, b)));
}

/// A character boundary of a valid encoding stays one in any prefix that
/// ends at a later boundary.
pub proof fn lemma_boundary_in_prefix(bytes: Seq<u8>, from: int, to: int)
    requires
        valid_utf8(bytes),
        0 <= from <= to <= bytes.len(),
        is_char_boundary(bytes, from),
        is_char_boundary(bytes, to),
    ensures
        valid_utf8(bytes.subrange(0, to)),
        is_char_boundary(bytes.subrange(0, to), from),
{
    valid_utf8_split(bytes, to);
    let pre = bytes.subrange(0, to);
    if from == to {
        is_char_boundary_start_end_of_seq(pre);
    } else {
        is_char_boundary_iff_not_is_continuation_byte(bytes, from);
        is_char_boundary_iff_not_is_continuation_byte(pre, from);
    }
}

/// An owned copy of the text between byte positions `from` and `to` of
/// `s`; both must be character boundaries.
pub fn slice_of(s: &str, from: usize, to: usize) -> (piece: String)
    requires
        from <= to <= s.spec_bytes().len(),
        is_char_boundary(s.spec_bytes(), from as int),
        is_char_boundary(s.spec_bytes(), to as int),
    ensures
        piece@ == decode_utf8(s.spec_bytes().subrange(from as int, to as int)),
        encode_utf8(piece@) == s.spec_bytes().subrange(from as int, to as int),
{
    proof {
        encode_utf8_valid_utf8(s@);
        lemma_boundary_in_prefix(s.spec_bytes(), from as int, to as int);
    }
    let (pre, _) = s.split_at(to);
    let (_, middle) = pre.split_at(from);
    proof {
        assert(middle.spec_bytes() =~= s.spec_bytes().subrange(from as int, to as int));
        encode_utf8_decode_utf8(middle@);
    }
    middle.to_owned()
}

/// The number of bytes that the UTF-8 encoding of `c` takes.
pub fn utf8_len(c: char) -> (n: usize)
    ensures
        n == utf8_width(c),
{
    let v = c as u32;
    if v < 0x80 {
        1
    } else if v < 0x800 {
        2
    } else if v < 0x10000 {
        3
    } else {
        4
    }
}

} // verus!
