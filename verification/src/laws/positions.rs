//! LSP positions and byte offsets: how they follow the text.

use crate::chars::{
    byte_offset, char_index, lemma_byte_offset_ends, lemma_byte_offset_injective,
    lemma_byte_offset_mono, lemma_offset_is_boundary, utf16_len, utf16_width,
};
use crate::seqs::lemma_last_position;
use crate::text::{
    clamped_index, column, index_of, lemma_index_of, lemma_line_starts, line_begin, line_end,
    line_starts, newlines, position_of, Position,
};
use vstd::prelude::*;
use vstd::utf8::*;

verus! {

/// The position moves with each character: a line feed starts the next line, and any
/// other character takes one column, or two if UTF-16 needs two units for it.
pub proof fn law_position_moves_with_the_text(s: Seq<char>, i: int)
    requires
        0 <= i < s.len(),
    ensures
        newlines(s.take(0)) == 0,
        column(s, 0) == 0,
        s[i] == '\n' ==> newlines(s.take(i + 1)) == newlines(s.take(i)) + 1 && column(s, i + 1) == 0,
        s[i] != '\n' ==> newlines(s.take(i + 1)) == newlines(s.take(i)) && column(s, i + 1)
            == column(s, i) + (if s[i] as int >= 65536 {
            2int
        } else {
            1int
        }),
{
    assert(s.take(0) =~= Seq::<char>::empty());
    assert(s.subrange(0, 0) =~= Seq::<char>::empty());
    let (a, b) = (s.take(i), s.take(i + 1));
    assert(b.drop_last() =~= a);
    assert(b.last() == s[i]);
    if s[i] == '\n' {
        assert(s.subrange(i + 1, i + 1) =~= Seq::<char>::empty());
    } else {
        lemma_last_position(a, '\n');
        let from = line_begin(s, i);
        assert(line_begin(s, i + 1) == from);
        assert(0 <= from <= i);
        assert(s.subrange(from, i + 1).drop_last() =~= s.subrange(from, i));
        assert(s.subrange(from, i + 1).last() == s[i]);
        law_utf16_units(s.subrange(from, i), s[i]);
    }
}

/// A position is the number of line feeds before it and the column, as far as they fit.
pub proof fn law_position_is_line_and_column(s: Seq<char>, i: int)
    requires
        0 <= i <= s.len(),
        newlines(s.take(i)) <= u32::MAX,
        0 <= column(s, i) <= u32::MAX,
    ensures
        position_of(s, i).line == newlines(s.take(i)),
        position_of(s, i).character == column(s, i),
{
    lemma_line_starts(s.take(i));
}

/// A position means the last place on its line that is not behind its column; a line
/// that the text does not have means nothing.
pub proof fn law_what_a_position_means(s: Seq<char>, p: Position)
    ensures
        match index_of(s, p) {
            None => p.line > newlines(s),
            Some(i) => {
                &&& p.line <= newlines(s)
                &&& 0 <= i <= s.len()
                &&& newlines(s.take(i)) == p.line
                &&& column(s, i) <= p.character
                &&& i == s.len() || s[i] == '\n' || p.character < column(s, i) + (if s[i] as int
                    >= 65536 {
                    2int
                } else {
                    1int
                })
            },
        },
{
    lemma_line_starts(s);
    if let Some(i) = index_of(s, p) {
        lemma_index_of(s, p);
        let line = p.line as int;
        if i < s.len() {
            law_utf16_units(s, s[i]);
        }
        if i == line_end(s, line) && line + 1 < line_starts(s).len() {
            assert(s[line_starts(s)[line + 1] - 1] == '\n');
        }
    }
}

/// A byte offset that starts a character means that character, and one at or behind the
/// end means the end.
pub proof fn law_what_an_offset_means(s: Seq<char>, i: int, offset: int)
    requires
        0 <= i <= s.len(),
    ensures
        byte_offset(s, i) == encode_utf8(s.take(i)).len(),
        clamped_index(s, encode_utf8(s.take(i)).len() as int) == i,
        char_index(s, encode_utf8(s.take(i)).len() as int) == i,
        offset >= encode_utf8(s).len() ==> clamped_index(s, offset) == s.len(),
{
    lemma_offset_is_boundary(s, i);
    lemma_byte_offset_ends(s);
    if byte_offset(s, i) >= encode_utf8(s).len() {
        lemma_byte_offset_mono(s, i, s.len() as int);
        lemma_byte_offset_injective(s, i, s.len() as int);
    }
}

/// UTF-16 takes one unit for each character of the basic plane, and two for any other.
pub proof fn law_utf16_units(s: Seq<char>, c: char)
    ensures
        utf16_width(c) == (if c as int >= 65536 {
            2int
        } else {
            1int
        }),
        utf16_len(Seq::<char>::empty()) == 0,
        utf16_len(s.push(c)) == utf16_len(s) + utf16_width(c),
{
    assert(s.push(c).drop_last() =~= s);
}

} // verus!
