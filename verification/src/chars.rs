//! Characters of a text, their byte offsets in UTF-8 and their widths.

use vstd::prelude::*;
use vstd::string::*;
use vstd::utf8::*;

verus! {

/// Number of bytes that `c` takes in UTF-8.
pub open spec fn utf8_width(c: char) -> int {
    encode_scalar(c as u32).len() as int
}

/// Number of code units that `c` takes in UTF-16.
pub open spec fn utf16_width(c: char) -> int {
    if (c as u32) < 0x10000 {
        1
    } else {
        2
    }
}

/// Number of UTF-16 code units of a text.
pub open spec fn utf16_len(s: Seq<char>) -> int
    decreases s.len(),
{
    if s.len() == 0 {
        0
    } else {
        utf16_len(s.drop_last()) + utf16_width(s.last())
    }
}

/// Byte offset at which the `i`-th character of `s` starts; the length in bytes
/// for `i == s.len()`.
pub open spec fn byte_offset(s: Seq<char>, i: int) -> int {
    encode_utf8(s.take(i)).len() as int
}

/// Number of characters of `s` that start before the byte offset `o`.
pub open spec fn char_index(s: Seq<char>, o: int) -> int
    decreases s.len(),
{
    if s.len() == 0 || o <= 0 {
        0
    } else {
        1 + char_index(s.drop_first(), o - utf8_width(s[0]))
    }
}

/// The code points with the Unicode property `White_Space`.
pub open spec fn white_space(c: char) -> bool {
    let u = c as u32;
    ||| 0x09 <= u <= 0x0d
    ||| u == 0x20
    ||| u == 0x85
    ||| u == 0xa0
    ||| u == 0x1680
    ||| 0x2000 <= u <= 0x200a
    ||| u == 0x2028
    ||| u == 0x2029
    ||| u == 0x202f
    ||| u == 0x205f
    ||| u == 0x3000
}

/// The text `s` with each `from` replaced by `to`.
pub open spec fn replaced(s: Seq<char>, from: char, to: char) -> Seq<char> {
    s.map_values(|c: char| if c == from { to } else { c })
}

/// Characters take between one and four bytes.
pub proof fn lemma_utf8_width(c: char)
    ensures
        1 <= utf8_width(c) <= 4,
        (c as u32) < 0x80 ==> utf8_width(c) == 1,
{
}

/// Encoding distributes over concatenation.
pub proof fn lemma_encode_concat(a: Seq<char>, b: Seq<char>)
    ensures
        encode_utf8(a + b) == encode_utf8(a) + encode_utf8(b),
    decreases a.len(),
{
    if a.len() == 0 {
        assert(a + b =~= b);
        assert(encode_utf8(a) + encode_utf8(b) =~= encode_utf8(b));
    } else {
        lemma_encode_concat(a.drop_first(), b);
        assert((a + b).drop_first() =~= a.drop_first() + b);
        assert(encode_utf8(a + b) =~= encode_utf8(a) + encode_utf8(b));
    }
}

/// The offset of the next character lies one character width further.
pub proof fn lemma_byte_offset_step(s: Seq<char>, i: int)
    requires
        0 <= i < s.len(),
    ensures
        byte_offset(s, i + 1) == byte_offset(s, i) + utf8_width(s[i]),
{
    assert(s.take(i + 1) =~= s.take(i) + seq![s[i]]);
    lemma_encode_concat(s.take(i), seq![s[i]]);
    reveal_with_fuel(encode_utf8, 2);
    assert(encode_utf8(seq![s[i]]) =~= encode_scalar(s[i] as u32));
}

/// Offsets of a prefix, and of the characters after it.
pub proof fn lemma_byte_offset_split(s: Seq<char>, i: int, j: int)
    requires
        0 <= i <= j <= s.len(),
    ensures
        byte_offset(s, j) == byte_offset(s, i) + encode_utf8(s.subrange(i, j)).len(),
{
    assert(s.take(j) =~= s.take(i) + s.subrange(i, j));
    lemma_encode_concat(s.take(i), s.subrange(i, j));
}

/// Offsets grow with the index, by at least one byte for each character.
pub proof fn lemma_byte_offset_mono(s: Seq<char>, i: int, j: int)
    requires
        0 <= i <= j <= s.len(),
    ensures
        byte_offset(s, i) + (j - i) <= byte_offset(s, j),
    decreases j - i,
{
    if i < j {
        lemma_byte_offset_mono(s, i, j - 1);
        lemma_byte_offset_step(s, j - 1);
        lemma_utf8_width(s[j - 1]);
    }
}

/// The first character starts at 0, and the last one ends with the text.
pub proof fn lemma_byte_offset_ends(s: Seq<char>)
    ensures
        byte_offset(s, 0) == 0,
        byte_offset(s, s.len() as int) == encode_utf8(s).len(),
{
    assert(s.take(0) =~= Seq::<char>::empty());
    assert(s.take(s.len() as int) =~= s);
}

/// Different characters have different offsets.
pub proof fn lemma_byte_offset_injective(s: Seq<char>, i: int, j: int)
    requires
        0 <= i <= s.len(),
        0 <= j <= s.len(),
        byte_offset(s, i) == byte_offset(s, j),
    ensures
        i == j,
{
    if i < j {
        lemma_byte_offset_mono(s, i, j);
    } else {
        lemma_byte_offset_mono(s, j, i);
    }
}

/// Each character starts on a character boundary, and `char_index` finds it there.
pub proof fn lemma_offset_is_boundary(s: Seq<char>, i: int)
    requires
        0 <= i <= s.len(),
    ensures
        is_char_boundary(encode_utf8(s), byte_offset(s, i)),
        char_index(s, byte_offset(s, i)) == i,
    decreases i,
{
    encode_utf8_valid_utf8(s);
    if i == 0 {
        lemma_byte_offset_ends(s);
    } else {
        let bytes = encode_utf8(s);
        let rest = s.drop_first();
        encode_utf8_first_scalar(s);
        assert(pop_first_scalar(bytes) =~= encode_utf8(rest));
        assert(s.take(i).drop_first() =~= rest.take(i - 1));
        assert(s.take(i)[0] == s[0]);
        assert(byte_offset(s, i) == utf8_width(s[0]) + byte_offset(rest, i - 1));
        lemma_offset_is_boundary(rest, i - 1);
        lemma_utf8_width(s[0]);
        lemma_byte_offset_mono(s, i, s.len() as int);
        lemma_byte_offset_ends(s);
    }
}

/// Each character boundary is the offset of the character that `char_index` finds.
pub proof fn lemma_boundary_is_offset(s: Seq<char>, o: int)
    requires
        is_char_boundary(encode_utf8(s), o),
    ensures
        0 <= char_index(s, o) <= s.len(),
        byte_offset(s, char_index(s, o)) == o,
    decreases s.len(),
{
    encode_utf8_valid_utf8(s);
    lemma_byte_offset_ends(s);
    if o != 0 {
        let bytes = encode_utf8(s);
        assert(0 < o <= bytes.len());
        assert(s.len() > 0);
        let rest = s.drop_first();
        encode_utf8_first_scalar(s);
        assert(pop_first_scalar(bytes) =~= encode_utf8(rest));
        lemma_boundary_is_offset(rest, o - utf8_width(s[0]));
        let k = char_index(rest, o - utf8_width(s[0]));
        assert(s.take(k + 1).drop_first() =~= rest.take(k));
        assert(s.take(k + 1)[0] == s[0]);
    }
}

/// Equal encodings have equal characters.
pub proof fn lemma_encode_injective(a: Seq<char>, b: Seq<char>)
    requires
        encode_utf8(a) == encode_utf8(b),
    ensures
        a == b,
{
    encode_utf8_decode_utf8(a);
    encode_utf8_decode_utf8(b);
}

/// Cutting the encoding at the offset of a character cuts the text there.
pub proof fn lemma_encode_split(s: Seq<char>, i: int)
    requires
        0 <= i <= s.len(),
    ensures
        encode_utf8(s).subrange(0, byte_offset(s, i)) == encode_utf8(s.take(i)),
        encode_utf8(s).subrange(byte_offset(s, i), encode_utf8(s).len() as int) == encode_utf8(
            s.skip(i),
        ),
{
    assert(s =~= s.take(i) + s.skip(i));
    lemma_encode_concat(s.take(i), s.skip(i));
    assert(encode_utf8(s).subrange(0, byte_offset(s, i)) =~= encode_utf8(s.take(i)));
    assert(encode_utf8(s).subrange(byte_offset(s, i), encode_utf8(s).len() as int) =~= encode_utf8(
        s.skip(i),
    ));
}

/// UTF-16 length of a text that grows by one character.
pub proof fn lemma_utf16_step(s: Seq<char>, from: int, i: int)
    requires
        0 <= from <= i < s.len(),
    ensures
        utf16_len(s.subrange(from, i + 1)) == utf16_len(s.subrange(from, i)) + utf16_width(s[i]),
{
    assert(s.subrange(from, i + 1).drop_last() =~= s.subrange(from, i));
}

/// UTF-16 lengths grow with the text, by at least one unit for each character.
pub proof fn lemma_utf16_mono(s: Seq<char>, from: int, i: int, j: int)
    requires
        0 <= from <= i <= j <= s.len(),
    ensures
        utf16_len(s.subrange(from, i)) + (j - i) <= utf16_len(s.subrange(from, j)),
    decreases j - i,
{
    if i < j {
        lemma_utf16_mono(s, from, i, j - 1);
        lemma_utf16_step(s, from, j - 1);
    }
}

/// A text has no more UTF-16 code units than bytes.
pub proof fn lemma_utf16_within_bytes(s: Seq<char>)
    ensures
        0 <= utf16_len(s) <= encode_utf8(s).len(),
    decreases s.len(),
{
    if s.len() > 0 {
        lemma_utf16_within_bytes(s.drop_last());
        lemma_byte_offset_step(s, s.len() - 1);
        assert(s.take(s.len() - 1) =~= s.drop_last());
        assert(s.take(s.len() as int) =~= s);
    }
}

/// Appends a character, as `String::push` documents.
pub assume_specification[ String::push ](s: &mut String, c: char)
    ensures
        final(s)@ == old(s)@.push(c),
;

/// Decodes UTF-8, as `std::str::from_utf8` documents: the text has the bytes that
/// were given, and there is one exactly if the bytes are valid UTF-8.
#[verifier::external_body]
pub(crate) fn decode(bytes: &[u8]) -> (text: Option<&str>)
    ensures
        match text {
            Some(t) => valid_utf8(bytes@) && t.spec_bytes() == bytes@,
            None => !valid_utf8(bytes@),
        },
{
    std::str::from_utf8(bytes).ok()
}

/// Number of bytes that `c` takes in UTF-8.
pub fn char_utf8_width(c: char) -> (w: usize)
    ensures
        w == utf8_width(c),
{
    let u: u32 = c as u32;
    if u < 0x80 {
        1
    } else if u < 0x800 {
        2
    } else if u < 0x10000 {
        3
    } else {
        4
    }
}

/// Number of code units that `c` takes in UTF-16.
pub fn char_utf16_width(c: char) -> (w: usize)
    ensures
        w == utf16_width(c),
{
    if (c as u32) < 0x10000 {
        1
    } else {
        2
    }
}

/// Whether `c` has the Unicode property `White_Space`.
pub fn is_white_space(c: char) -> (b: bool)
    ensures
        b == white_space(c),
{
    let u: u32 = c as u32;
    (0x09 <= u && u <= 0x0d) || u == 0x20 || u == 0x85 || u == 0xa0 || u == 0x1680 || (0x2000 <= u
        && u <= 0x200a) || u == 0x2028 || u == 0x2029 || u == 0x202f || u == 0x205f || u == 0x3000
}

/// The characters of a text.
pub fn chars_of(text: &str) -> (v: Vec<char>)
    ensures
        v@ == text@,
{
    let mut v: Vec<char> = Vec::new();
    for c in it: text.chars()
        invariant
            v@ == it.seq().take(it.index() as int),
            it.seq() == text@,
    {
        v.push(c);
    }
    v
}

/// The part of a text between two byte offsets on character boundaries.
pub fn slice_text(text: &str, from: usize, to: usize) -> (r: &str)
    requires
        from <= to,
        is_char_boundary(text.spec_bytes(), from as int),
        is_char_boundary(text.spec_bytes(), to as int),
    ensures
        r@ == text@.subrange(char_index(text@, from as int), char_index(text@, to as int)),
{
    let ghost s = text@;
    let ghost i = char_index(s, from as int);
    let ghost j = char_index(s, to as int);
    proof {
        lemma_boundary_is_offset(s, from as int);
        lemma_boundary_is_offset(s, to as int);
        if j < i {
            lemma_byte_offset_mono(s, j, i);
        }
        lemma_encode_split(s, j);
    }
    let (head, _tail) = text.split_at(to);
    proof {
        lemma_encode_injective(head@, s.take(j));
        assert(head@.take(i) =~= s.take(i));
        lemma_offset_is_boundary(head@, i);
        lemma_encode_split(head@, i);
    }
    let (_head, mid) = head.split_at(from);
    proof {
        lemma_encode_injective(mid@, head@.skip(i));
        assert(head@.skip(i) =~= s.subrange(i, j));
    }
    mid
}

/// The text made of `chars[from..to]`.
pub fn text_of(chars: &[char], from: usize, to: usize) -> (s: String)
    requires
        from <= to <= chars@.len(),
    ensures
        s@ == chars@.subrange(from as int, to as int),
{
    let mut s = String::new();
    let mut i: usize = from;
    while i < to
        invariant
            from <= i <= to <= chars@.len(),
            s@ == chars@.subrange(from as int, i as int),
        decreases to - i,
    {
        s.push(chars[i]);
        i = i + 1;
    }
    s
}

} // verus!
