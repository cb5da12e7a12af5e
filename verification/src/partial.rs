//! UTF-8 texts that were cut, possibly inside a character.

use crate::chars::{
    byte_offset, decode, lemma_byte_offset_ends, lemma_byte_offset_mono, lemma_byte_offset_step,
    lemma_encode_split,
};
use vstd::prelude::*;
use vstd::slice::slice_subrange;
use vstd::string::*;
use vstd::utf8::*;

verus! {

/// Whether `tail` is the start of the bytes of `c`, but not all of them.
pub open spec fn is_start_of(tail: Seq<u8>, c: char) -> bool {
    &&& 0 < tail.len() < encode_scalar(c as u32).len()
    &&& tail == encode_scalar(c as u32).take(tail.len() as int)
}

/// Whether `tail` is an unfinished character.
pub open spec fn starts_char(tail: Seq<u8>) -> bool {
    exists|c: char| is_start_of(tail, c)
}

/// Whether the last `k` of the bytes are an unfinished character behind a text.
pub open spec fn cut_inside(bytes: Seq<u8>, k: int) -> bool {
    &&& k <= bytes.len()
    &&& valid_utf8(bytes.take(bytes.len() - k))
    &&& starts_char(bytes.skip(bytes.len() - k))
}

/// The text in bytes that may end with an unfinished character; an unfinished
/// character has at most three bytes.
pub open spec fn partial_text(bytes: Seq<u8>) -> Option<Seq<char>> {
    if valid_utf8(bytes) {
        Some(decode_utf8(bytes))
    } else if cut_inside(bytes, 1) {
        Some(decode_utf8(bytes.take(bytes.len() - 1)))
    } else if cut_inside(bytes, 2) {
        Some(decode_utf8(bytes.take(bytes.len() - 2)))
    } else if cut_inside(bytes, 3) {
        Some(decode_utf8(bytes.take(bytes.len() - 3)))
    } else {
        None
    }
}

/// Whether a byte can follow the first byte of a character of three bytes.
spec fn second_of_3(b0: u8, b1: u8) -> bool {
    &&& 0x80 <= b1 <= 0xbf
    &&& b0 == 0xe0 ==> b1 >= 0xa0
    &&& b0 == 0xed ==> b1 <= 0x9f
}

/// Whether a byte can follow the first byte of a character of four bytes.
spec fn second_of_4(b0: u8, b1: u8) -> bool {
    &&& 0x80 <= b1 <= 0xbf
    &&& b0 == 0xf0 ==> b1 >= 0x90
    &&& b0 == 0xf4 ==> b1 <= 0x8f
}

/// What the bytes of an unfinished character can be.
spec fn start_bytes(tail: Seq<u8>) -> bool {
    if tail.len() == 1 {
        0xc2 <= tail[0] <= 0xf4
    } else if tail.len() == 2 {
        ||| 0xe0 <= tail[0] <= 0xef && second_of_3(tail[0], tail[1])
        ||| 0xf0 <= tail[0] <= 0xf4 && second_of_4(tail[0], tail[1])
    } else {
        &&& tail.len() == 3
        &&& 0xf0 <= tail[0] <= 0xf4
        &&& second_of_4(tail[0], tail[1])
        &&& 0x80 <= tail[2] <= 0xbf
    }
}

proof fn lemma_bytes_of_2(v: u32)
    by (bit_vector)
    requires
        0x80 <= v <= 0x7ff,
    ensures
        0xc2 <= leading_byte_width_2(v) <= 0xdf,
{
}

proof fn lemma_bytes_of_3(v: u32)
    by (bit_vector)
    requires
        0x800 <= v <= 0xffff,
        !(0xd800 <= v <= 0xdfff),
    ensures
        0xe0 <= leading_byte_width_3(v) <= 0xef,
        0x80 <= second_last_continuation_byte(v) <= 0xbf,
        leading_byte_width_3(v) == 0xe0 ==> second_last_continuation_byte(v) >= 0xa0,
        leading_byte_width_3(v) == 0xed ==> second_last_continuation_byte(v) <= 0x9f,
{
}

proof fn lemma_bytes_of_4(v: u32)
    by (bit_vector)
    requires
        0x10000 <= v <= 0x10ffff,
    ensures
        0xf0 <= leading_byte_width_4(v) <= 0xf4,
        0x80 <= third_last_continuation_byte(v) <= 0xbf,
        0x80 <= second_last_continuation_byte(v) <= 0xbf,
        leading_byte_width_4(v) == 0xf0 ==> third_last_continuation_byte(v) >= 0x90,
        leading_byte_width_4(v) == 0xf4 ==> third_last_continuation_byte(v) <= 0x8f,
{
}

proof fn lemma_value_of_2(b0: u8, v: u32)
    by (bit_vector)
    requires
        0xc2 <= b0 <= 0xdf,
        v == ((b0 & 0x1f) as u32) << 6,
    ensures
        0x80 <= v <= 0x7ff,
        leading_byte_width_2(v) == b0,
{
}

proof fn lemma_value_of_3(b0: u8, b1: u8, v: u32)
    by (bit_vector)
    requires
        0xe0 <= b0 <= 0xef,
        0x80 <= b1 <= 0xbf,
        b0 == 0xe0 ==> b1 >= 0xa0,
        b0 == 0xed ==> b1 <= 0x9f,
        v == ((b0 & 0x0f) as u32) << 12 | ((b1 & 0x3f) as u32) << 6,
    ensures
        0x800 <= v <= 0xffff,
        !(0xd800 <= v <= 0xdfff),
        leading_byte_width_3(v) == b0,
        second_last_continuation_byte(v) == b1,
{
}

proof fn lemma_value_of_4(b0: u8, b1: u8, b2: u8, v: u32)
    by (bit_vector)
    requires
        0xf0 <= b0 <= 0xf4,
        0x80 <= b1 <= 0xbf,
        0x80 <= b2 <= 0xbf,
        b0 == 0xf0 ==> b1 >= 0x90,
        b0 == 0xf4 ==> b1 <= 0x8f,
        v == ((b0 & 0x07) as u32) << 18 | ((b1 & 0x3f) as u32) << 12 | ((b2 & 0x3f) as u32) << 6,
    ensures
        0x10000 <= v <= 0x10ffff,
        leading_byte_width_4(v) == b0,
        third_last_continuation_byte(v) == b1,
        second_last_continuation_byte(v) == b2,
{
}

/// The start of a character has the bytes that it can have.
proof fn lemma_start_of_char(tail: Seq<u8>, c: char)
    requires
        is_start_of(tail, c),
    ensures
        start_bytes(tail),
        !valid_utf8(tail),
{
    let v = c as u32;
    let bytes = encode_scalar(v);
    assert forall|i: int| 0 <= i < tail.len() implies #[trigger] tail[i] == bytes[i] by {}
    if has_width_2_encoding(v) {
        lemma_bytes_of_2(v);
    } else if has_width_3_encoding(v) {
        lemma_bytes_of_3(v);
    } else {
        lemma_bytes_of_4(v);
    }
}

/// The bytes that an unfinished character can have start some character.
proof fn lemma_start_bytes(tail: Seq<u8>)
    requires
        start_bytes(tail),
    ensures
        starts_char(tail),
{
    let b0 = tail[0];
    if b0 <= 0xdf {
        let v = ((b0 & 0x1f) as u32) << 6;
        lemma_value_of_2(b0, v);
        let c = v as char;
        assert(c as u32 == v);
        assert(tail =~= encode_scalar(v).take(1));
        assert(is_start_of(tail, c));
    } else if b0 <= 0xef {
        let b1: u8 = if tail.len() > 1 {
            tail[1]
        } else if b0 == 0xe0 {
            0xa0
        } else {
            0x80
        };
        let v = ((b0 & 0x0f) as u32) << 12 | ((b1 & 0x3f) as u32) << 6;
        lemma_value_of_3(b0, b1, v);
        let c = v as char;
        assert(c as u32 == v);
        assert(tail =~= encode_scalar(v).take(tail.len() as int));
        assert(is_start_of(tail, c));
    } else {
        let b1: u8 = if tail.len() > 1 {
            tail[1]
        } else if b0 == 0xf0 {
            0x90
        } else {
            0x80
        };
        let b2: u8 = if tail.len() > 2 {
            tail[2]
        } else {
            0x80
        };
        let v = ((b0 & 0x07) as u32) << 18 | ((b1 & 0x3f) as u32) << 12 | ((b2 & 0x3f) as u32) << 6;
        lemma_value_of_4(b0, b1, b2, v);
        let c = v as char;
        assert(c as u32 == v);
        assert(tail =~= encode_scalar(v).take(tail.len() as int));
        assert(is_start_of(tail, c));
    }
}

/// Decides [`starts_char`].
fn is_unfinished(tail: &[u8]) -> (b: bool)
    ensures
        b == starts_char(tail@),
{
    let n = tail.len();
    let r = if n == 1 {
        tail[0] >= 0xc2 && tail[0] <= 0xf4
    } else if n == 2 || n == 3 {
        let (b0, b1) = (tail[0], tail[1]);
        let of_3 = b0 >= 0xe0 && b0 <= 0xef && b1 >= 0x80 && b1 <= 0xbf && (b0 != 0xe0 || b1 >= 0xa0)
            && (b0 != 0xed || b1 <= 0x9f);
        let of_4 = b0 >= 0xf0 && b0 <= 0xf4 && b1 >= 0x80 && b1 <= 0xbf && (b0 != 0xf0 || b1 >= 0x90)
            && (b0 != 0xf4 || b1 <= 0x8f);
        if n == 2 {
            of_3 || of_4
        } else {
            of_4 && tail[2] >= 0x80 && tail[2] <= 0xbf
        }
    } else {
        false
    };
    proof {
        assert(r == start_bytes(tail@));
        if r {
            lemma_start_bytes(tail@);
        } else if starts_char(tail@) {
            let c = choose|c: char| is_start_of(tail@, c);
            lemma_start_of_char(tail@, c);
        }
    }
    r
}

/// The text before the last `k` bytes, if those are an unfinished character.
fn text_before(bytes: &[u8], k: usize) -> (text: Option<String>)
    ensures
        match text {
            Some(t) => cut_inside(bytes@, k as int) && t@ == decode_utf8(
                bytes@.take(bytes@.len() - k),
            ),
            None => !cut_inside(bytes@, k as int),
        },
{
    if k > bytes.len() {
        return None;
    }
    let cut = bytes.len() - k;
    let tail = slice_subrange(bytes, cut, bytes.len());
    assert(tail@ =~= bytes@.skip(bytes@.len() - k));
    if !is_unfinished(tail) {
        return None;
    }
    let whole = slice_subrange(bytes, 0, cut);
    assert(whole@ =~= bytes@.take(bytes@.len() - k));
    match decode(whole) {
        Some(t) => {
            proof {
                encode_utf8_decode_utf8(t@);
            }
            Some(t.to_owned())
        },
        None => None,
    }
}

/// The text in bytes that may end with an unfinished character.
pub fn decode_partial(bytes: &[u8]) -> (text: Option<String>)
    ensures
        match text {
            Some(t) => partial_text(bytes@) == Some(t@),
            None => partial_text(bytes@) is None,
        },
{
    if let Some(t) = decode(bytes) {
        proof {
            encode_utf8_decode_utf8(t@);
        }
        return Some(t.to_owned());
    }
    if let Some(t) = text_before(bytes, 1) {
        return Some(t);
    }
    if let Some(t) = text_before(bytes, 2) {
        return Some(t);
    }
    text_before(bytes, 3)
}

/// The number of whole characters in the first `n` bytes of a text.
proof fn lemma_whole_chars(s: Seq<char>, n: int, top: int) -> (i: int)
    requires
        0 <= n,
        0 <= top <= s.len(),
        top < s.len() ==> n < byte_offset(s, top + 1),
    ensures
        0 <= i <= top,
        byte_offset(s, i) <= n,
        i < s.len() ==> n < byte_offset(s, i + 1),
    decreases top,
{
    lemma_byte_offset_ends(s);
    if byte_offset(s, top) <= n {
        top
    } else {
        lemma_whole_chars(s, n, top - 1)
    }
}

/// Wherever a text is cut, its whole characters are read back.
pub proof fn law_cut_text_reads_back(s: Seq<char>, n: int)
    requires
        0 <= n <= encode_utf8(s).len(),
    ensures
        partial_text(encode_utf8(s).take(n)) is Some,
        ({
            let i = partial_text(encode_utf8(s).take(n))->0.len() as int;
            &&& i <= s.len()
            &&& partial_text(encode_utf8(s).take(n))->0 == s.take(i)
            &&& byte_offset(s, i) <= n
            &&& i < s.len() ==> n < byte_offset(s, i + 1)
        }),
{
    let bytes = encode_utf8(s);
    let head = bytes.take(n);
    let i = lemma_whole_chars(s, n, s.len() as int);
    let off = byte_offset(s, i);
    lemma_byte_offset_ends(s);
    lemma_byte_offset_mono(s, i, s.len() as int);
    lemma_encode_split(s, i);
    let whole = encode_utf8(s.take(i));
    assert(head.take(off) =~= whole);
    encode_utf8_valid_utf8(s.take(i));
    encode_utf8_decode_utf8(s.take(i));
    let k = n - off;
    assert(s.take(i).len() == i);
    if k == 0 {
        assert(head =~= whole);
    } else {
        lemma_byte_offset_step(s, i);
        let tail = head.skip(off);
        let rest = encode_utf8(s.skip(i));
        assert(s.skip(i)[0] == s[i]);
        assert(tail =~= rest.take(k)) by {
            assert(rest =~= bytes.subrange(off, bytes.len() as int));
        }
        assert(tail =~= encode_scalar(s[i] as u32).take(k));
        assert(is_start_of(tail, s[i]));
        lemma_start_of_char(tail, s[i]);
        assert(head.subrange(0, off) =~= whole);
        assert(head.subrange(off, n) =~= tail);
        partial_valid_partial_invalid_utf8(head, off);
        assert(cut_inside(head, k));
        assert forall|j: int| 0 < j < k implies !cut_inside(head, j) by {
            if cut_inside(head, j) {
                let inner = head.skip(n - j);
                let c = choose|c: char| is_start_of(inner, c);
                lemma_start_of_char(inner, c);
                assert(inner[0] == tail[k - j]);
            }
        }
    }
}

} // verus!
