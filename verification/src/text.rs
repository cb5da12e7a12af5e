//! Document text with LSP position <-> byte offset conversion.
//!
//! LSP positions are UTF-16 code-unit based (the default encoding). Prompts
//! frequently contain non-ASCII text (e.g. Japanese), so we must convert
//! properly instead of assuming byte == column.

use crate::chars::{
    byte_offset, char_index, char_utf16_width, char_utf8_width, chars_of, slice_text, utf16_len,
    utf16_width,
};
use crate::chars::{
    lemma_boundary_is_offset, lemma_byte_offset_ends, lemma_byte_offset_injective,
    lemma_byte_offset_mono, lemma_byte_offset_step, lemma_offset_is_boundary,
    lemma_utf16_mono, lemma_utf16_step, lemma_utf16_within_bytes,
};
use crate::seqs::last_position;
use vstd::prelude::*;
use vstd::string::*;
use vstd::utf8::*;

verus! {

/// A place in a document: a line and a column in UTF-16 code units, from 0.
#[derive(Debug, Clone, Copy, PartialEq, Eq)]
pub struct Position {
    pub line: u32,
    pub character: u32,
}

impl Position {
    pub fn new(line: u32, character: u32) -> (p: Position)
        ensures
            p == (Position { line, character }),
    {
        Position { line, character }
    }
}

/// A stretch of a document; the end is not part of it.
#[derive(Debug, Clone, Copy, PartialEq, Eq)]
pub struct Range {
    pub start: Position,
    pub end: Position,
}

impl Range {
    pub fn new(start: Position, end: Position) -> (r: Range)
        ensures
            r == (Range { start, end }),
    {
        Range { start, end }
    }
}

/// Number of line feeds in a text.
pub open spec fn newlines(s: Seq<char>) -> int
    decreases s.len(),
{
    if s.len() == 0 {
        0
    } else {
        newlines(s.drop_last()) + if s.last() == '\n' {
            1int
        } else {
            0int
        }
    }
}

/// The positions at which the lines of a text start: 0, and the position after
/// each line feed.
pub open spec fn line_starts(s: Seq<char>) -> Seq<int>
    decreases s.len(),
{
    if s.len() == 0 {
        seq![0]
    } else if s.last() == '\n' {
        line_starts(s.drop_last()).push(s.len() as int)
    } else {
        line_starts(s.drop_last())
    }
}

/// The end of the `n`-th line, without its line feed.
pub open spec fn line_end(s: Seq<char>, n: int) -> int {
    if n + 1 < line_starts(s).len() {
        line_starts(s)[n + 1] - 1
    } else {
        s.len() as int
    }
}

/// The start of the line in which position `i` lies.
pub open spec fn line_begin(s: Seq<char>, i: int) -> int {
    match last_position(s.take(i), '\n') {
        None => 0,
        Some(k) => k + 1,
    }
}

/// The column of position `i`.
pub open spec fn column(s: Seq<char>, i: int) -> int {
    utf16_len(s.subrange(line_begin(s, i), i))
}

/// The line and the column of position `i`.
pub open spec fn position_of(s: Seq<char>, i: int) -> Position {
    Position { line: newlines(s.take(i)) as u32, character: column(s, i) as u32 }
}

/// The last position in `from..=to` that at most `units` code units precede. A
/// column inside a surrogate pair gives the position of its character, and one
/// past the end gives `to`.
pub open spec fn at_column(s: Seq<char>, from: int, to: int, units: int) -> int
    decreases to - from,
{
    if to <= from || utf16_len(s.subrange(from, to)) <= units {
        to
    } else {
        at_column(s, from, to - 1, units)
    }
}

/// The position in the text that an LSP position means, if its line exists.
pub open spec fn index_of(s: Seq<char>, p: Position) -> Option<int> {
    if p.line < line_starts(s).len() {
        Some(
            at_column(
                s,
                line_starts(s)[p.line as int],
                line_end(s, p.line as int),
                p.character as int,
            ),
        )
    } else {
        None
    }
}

/// The position that a byte offset means; an offset past the end means the end.
pub open spec fn clamped_index(s: Seq<char>, offset: int) -> int {
    if offset >= encode_utf8(s).len() {
        s.len() as int
    } else {
        char_index(s, offset)
    }
}

/// There is one line more than line feeds; lines start in order, within the text,
/// and behind a line feed.
pub proof fn lemma_line_starts(s: Seq<char>)
    ensures
        0 <= newlines(s) <= s.len(),
        line_starts(s).len() == newlines(s) + 1,
        line_starts(s)[0] == 0,
        line_starts(s).last() == line_begin(s, s.len() as int),
        forall|k: int| 0 <= k < line_starts(s).len() ==> 0 <= #[trigger] line_starts(s)[k]
            <= s.len(),
        forall|k: int|
            0 < k < line_starts(s).len() ==> 0 < #[trigger] line_starts(s)[k]
                && s[line_starts(s)[k] - 1] == '\n',
        forall|j: int, k: int|
            0 <= j < k < line_starts(s).len() ==> #[trigger] line_starts(s)[j]
                < #[trigger] line_starts(s)[k],
    decreases s.len(),
{
    assert(s.take(s.len() as int) =~= s);
    if s.len() > 0 {
        let init = s.drop_last();
        lemma_line_starts(init);
        assert(init.take(init.len() as int) =~= init);
        assert forall|k: int| 0 < k < line_starts(s).len() implies 0 < #[trigger] line_starts(s)[k]
            && s[line_starts(s)[k] - 1] == '\n' by {
            if k < line_starts(init).len() {
                assert(init[line_starts(init)[k] - 1] == '\n');
            }
        }
    }
}

/// The lines of a prefix start where the first lines of the text do.
proof fn lemma_line_starts_prefix(s: Seq<char>, i: int)
    requires
        0 <= i <= s.len(),
    ensures
        line_starts(s.take(i)).len() <= line_starts(s).len(),
        forall|k: int|
            0 <= k < line_starts(s.take(i)).len() ==> #[trigger] line_starts(s.take(i))[k]
                == line_starts(s)[k],
        forall|k: int|
            line_starts(s.take(i)).len() <= k < line_starts(s).len() ==> i
                < #[trigger] line_starts(s)[k],
    decreases s.len() - i,
{
    if i == s.len() {
        assert(s.take(i) =~= s);
    } else {
        lemma_line_starts_prefix(s, i + 1);
        assert(s.take(i + 1).drop_last() =~= s.take(i));
        let short = line_starts(s.take(i));
        let long = line_starts(s.take(i + 1));
        assert forall|k: int| 0 <= k < short.len() implies #[trigger] short[k] == line_starts(
            s,
        )[k] by {
            assert(short[k] == long[k]);
        }
        assert forall|k: int| short.len() <= k < line_starts(s).len() implies i
            < #[trigger] line_starts(s)[k] by {
            if k < long.len() {
                assert(long[k] == line_starts(s)[k]);
            }
        }
    }
}

/// The line in which position `i` lies.
proof fn lemma_line_of(s: Seq<char>, i: int)
    requires
        0 <= i <= s.len(),
    ensures
        ({
            let n = newlines(s.take(i));
            &&& 0 <= n < line_starts(s).len()
            &&& line_starts(s)[n] == line_begin(s, i)
            &&& 0 <= line_begin(s, i) <= i <= line_end(s, n)
        }),
{
    let n = newlines(s.take(i));
    lemma_line_starts(s.take(i));
    lemma_line_starts_prefix(s, i);
    assert(s.take(i).take(i) =~= s.take(i));
    assert(line_starts(s.take(i))[n] == line_starts(s)[n]);
}

/// `at_column` lies in the line, and is the last position within the column.
proof fn lemma_at_column(s: Seq<char>, from: int, to: int, units: int)
    requires
        0 <= from <= to <= s.len(),
        0 <= units,
    ensures
        from <= at_column(s, from, to, units) <= to,
        utf16_len(s.subrange(from, at_column(s, from, to, units))) <= units,
        at_column(s, from, to, units) < to ==> units < utf16_len(
            s.subrange(from, at_column(s, from, to, units) + 1),
        ),
    decreases to - from,
{
    if to <= from {
        assert(s.subrange(from, to) =~= Seq::<char>::empty());
    } else if utf16_len(s.subrange(from, to)) > units {
        lemma_at_column(s, from, to - 1, units);
    }
}

/// The last position within the column is the only such position.
proof fn lemma_at_column_unique(s: Seq<char>, from: int, to: int, units: int, j: int)
    requires
        0 <= from <= j <= to <= s.len(),
        utf16_len(s.subrange(from, j)) <= units,
        j < to ==> units < utf16_len(s.subrange(from, j + 1)),
    ensures
        at_column(s, from, to, units) == j,
{
    assert(utf16_len(s.subrange(from, from)) == 0) by {
        assert(s.subrange(from, from) =~= Seq::<char>::empty());
    }
    lemma_utf16_mono(s, from, from, j);
    lemma_at_column(s, from, to, units);
    let a = at_column(s, from, to, units);
    if a < j {
        lemma_utf16_mono(s, from, a + 1, j);
    } else if j < a {
        lemma_utf16_mono(s, from, j + 1, a);
    }
}

/// An in-memory copy of an open document plus a line-start table for
/// O(log n) position lookups.
#[derive(Debug)]
pub struct Document {
    text: String,
    /// Byte offset of the first character of each line.
    line_starts: Vec<usize>,
}

impl View for Document {
    type V = Seq<char>;

    closed spec fn view(&self) -> Seq<char> {
        self.text@
    }
}

impl Clone for Document {
    fn clone(&self) -> (d: Document)
        ensures
            d@ == self@,
    {
        proof {
            use_type_invariant(self);
        }
        let line_starts = self.line_starts.clone();
        assert(line_starts@ =~= self.line_starts@);
        Document { text: self.text.clone(), line_starts }
    }
}

/// Whether `table` holds the byte offsets of the line starts of `s`.
pub open spec fn is_line_table(table: Seq<usize>, s: Seq<char>) -> bool {
    &&& table.len() == line_starts(s).len()
    &&& forall|k: int|
        0 <= k < table.len() ==> #[trigger] table[k] == byte_offset(s, line_starts(s)[k])
}

impl Document {
    #[verifier::type_invariant]
    spec fn well_formed(self) -> bool {
        is_line_table(self.line_starts@, self.text@)
    }

    pub fn new(text: String) -> (d: Document)
        ensures
            d@ == text@,
    {
        let ghost s = text@;
        let chars = chars_of(text.as_str());
        let total = text.as_str().as_bytes().len();
        let mut starts: Vec<usize> = Vec::new();
        starts.push(0);
        let mut i: usize = 0;
        let mut at: usize = 0;
        proof {
            lemma_byte_offset_ends(s);
            assert(s.take(0) =~= Seq::<char>::empty());
        }
        while i < chars.len()
            invariant
                chars@ == s,
                total == byte_offset(s, s.len() as int),
                0 <= i <= s.len(),
                at == byte_offset(s, i as int),
                starts@.len() == line_starts(s.take(i as int)).len(),
                forall|k: int|
                    0 <= k < starts@.len() ==> #[trigger] starts@[k] == byte_offset(
                        s,
                        line_starts(s.take(i as int))[k],
                    ),
            decreases chars.len() - i,
        {
            proof {
                lemma_byte_offset_step(s, i as int);
                lemma_byte_offset_mono(s, i + 1, s.len() as int);
                assert(s.take(i + 1).drop_last() =~= s.take(i as int));
            }
            at = at + char_utf8_width(chars[i]);
            if chars[i] == '\n' {
                starts.push(at);
            }
            i = i + 1;
        }
        assert(s.take(i as int) =~= s);
        Document { text, line_starts: starts }
    }

    pub fn text(&self) -> (t: &str)
        ensures
            t@ == self@,
    {
        self.text.as_str()
    }

    /// The last line that starts at or before the byte offset.
    fn line_at(&self, offset: usize) -> (line: usize)
        ensures
            line < line_starts(self@).len(),
            byte_offset(self@, line_starts(self@)[line as int]) <= offset,
            line + 1 < line_starts(self@).len() ==> offset < byte_offset(
                self@,
                line_starts(self@)[line + 1],
            ),
    {
        proof {
            use_type_invariant(self);
            lemma_line_starts(self@);
            lemma_byte_offset_ends(self@);
        }
        let mut lo: usize = 0;
        let mut hi: usize = self.line_starts.len();
        while lo + 1 < hi
            invariant
                is_line_table(self.line_starts@, self@),
                0 <= lo < hi <= self.line_starts@.len(),
                self.line_starts@[lo as int] <= offset,
                hi < self.line_starts@.len() ==> offset < self.line_starts@[hi as int],
            decreases hi - lo,
        {
            let mid: usize = lo + (hi - lo) / 2;
            if self.line_starts[mid] <= offset {
                lo = mid;
            } else {
                hi = mid;
            }
        }
        lo
    }

    /// Convert a byte offset (must be on a char boundary) into an LSP position.
    pub fn offset_to_position(&self, offset: usize) -> (p: Position)
        requires
            offset < encode_utf8(self@).len() ==> is_char_boundary(
                encode_utf8(self@),
                offset as int,
            ),
        ensures
            p == position_of(self@, clamped_index(self@, offset as int)),
    {
        let ghost s = self@;
        let ghost i = clamped_index(s, offset as int);
        let total = self.text.as_str().as_bytes().len();
        let offset: usize = if offset < total {
            offset
        } else {
            total
        };
        let line = self.line_at(offset);
        let ghost from = line_starts(s)[line as int];
        proof {
            use_type_invariant(self);
            lemma_byte_offset_ends(s);
            lemma_offset_is_boundary(s, s.len() as int);
            lemma_boundary_is_offset(s, offset as int);
            assert(char_index(s, offset as int) == i);
            lemma_line_starts(s);
            lemma_offset_is_boundary(s, from);
            // The line of `i` is the one that was found.
            lemma_line_of(s, i);
            let n = newlines(s.take(i));
            if n < line {
                assert(line_starts(s)[n + 1] <= line_starts(s)[line as int]);
                lemma_byte_offset_mono(s, i, from);
            } else if line < n {
                assert(line_starts(s)[line + 1] <= line_starts(s)[n]);
                lemma_byte_offset_mono(s, line_starts(s)[line + 1], i);
            }
            assert(n == line);
        }
        let line_text = slice_text(self.text.as_str(), self.line_starts[line], offset);
        let chars = chars_of(line_text);
        let bytes = line_text.as_bytes().len();
        let mut units: usize = 0;
        let mut k: usize = 0;
        proof {
            assert(chars@ == s.subrange(from, i));
            assert(chars@.subrange(0, 0) =~= Seq::<char>::empty());
            lemma_utf16_within_bytes(chars@);
            assert(chars@.subrange(0, chars@.len() as int) =~= chars@);
        }
        while k < chars.len()
            invariant
                0 <= k <= chars@.len(),
                units == utf16_len(chars@.subrange(0, k as int)),
                utf16_len(chars@.subrange(0, chars@.len() as int)) <= usize::MAX,
            decreases chars.len() - k,
        {
            proof {
                lemma_utf16_step(chars@, 0, k as int);
                lemma_utf16_mono(chars@, 0, k + 1, chars@.len() as int);
            }
            units = units + char_utf16_width(chars[k]);
            k = k + 1;
        }
        Position::new(line as u32, units as u32)
    }

    /// Convert an LSP position into a byte offset. Returns `None` if the line is
    /// out of range; a column past the end of the line clamps to the line end.
    pub fn position_to_offset(&self, pos: Position) -> (r: Option<usize>)
        ensures
            match r {
                Some(offset) => {
                    &&& index_of(self@, pos) is Some
                    &&& offset == byte_offset(self@, index_of(self@, pos)->0)
                    &&& is_char_boundary(encode_utf8(self@), offset as int)
                },
                None => index_of(self@, pos) is None,
            },
    {
        let ghost s = self@;
        proof {
            use_type_invariant(self);
            lemma_line_starts(s);
            lemma_byte_offset_ends(s);
        }
        let line: usize = pos.line as usize;
        if line >= self.line_starts.len() {
            return None;
        }
        let start = self.line_starts[line];
        let total = self.text.as_str().as_bytes().len();
        let ghost from = line_starts(s)[line as int];
        let ghost to = line_end(s, line as int);
        proof {
            if line + 1 < line_starts(s).len() {
                assert(line_starts(s)[line as int] < line_starts(s)[line + 1]);
                lemma_byte_offset_step(s, to);
            }
            lemma_byte_offset_mono(s, from, to);
            lemma_offset_is_boundary(s, from);
            lemma_offset_is_boundary(s, to);
        }
        let end: usize = if line + 1 < self.line_starts.len() {
            // exclude the '\n'
            self.line_starts[line + 1] - 1
        } else {
            total
        };
        assert(end == byte_offset(s, to));
        let chars = chars_of(slice_text(self.text.as_str(), start, end));
        assert(chars@ == s.subrange(from, to));
        let units: usize = pos.character as usize;
        let mut remaining: usize = units;
        let mut at: usize = start;
        let mut k: usize = 0;
        assert(s.subrange(from, from) =~= Seq::<char>::empty());
        while k < chars.len()
            invariant
                0 <= from <= to <= s.len(),
                chars@ == s.subrange(from, to),
                0 <= k <= chars@.len(),
                at == byte_offset(s, from + k),
                end == byte_offset(s, to),
                remaining + utf16_len(s.subrange(from, from + k)) == units,
                units == pos.character,
                index_of(s, pos) == Some(at_column(s, from, to, units as int)),
                s == self@,
            decreases chars.len() - k,
        {
            let c = chars[k];
            let w = char_utf16_width(c);
            proof {
                lemma_utf16_step(s, from, from + k);
                lemma_byte_offset_step(s, from + k);
                lemma_byte_offset_mono(s, from + k + 1, to);
            }
            if remaining < w {
                // The column is this character, or lies inside its surrogate pair.
                proof {
                    lemma_at_column_unique(s, from, to, units as int, from + k);
                }
                proof {
                    lemma_offset_is_boundary(s, from + k);
                }
                return Some(at);
            }
            remaining = remaining - w;
            at = at + char_utf8_width(c);
            k = k + 1;
        }
        proof {
            lemma_at_column_unique(s, from, to, units as int, to);
        }
        Some(end)
    }
}

/// A position converted to a line and a column and back is the same position, for
/// every position whose line and column fit a [`Position`].
pub proof fn law_position_round_trip(s: Seq<char>, i: int)
    requires
        0 <= i <= s.len(),
        newlines(s.take(i)) <= u32::MAX,
        column(s, i) <= u32::MAX,
    ensures
        index_of(s, position_of(s, i)) == Some(i),
{
    lemma_line_of(s, i);
    lemma_line_starts(s);
    let n = newlines(s.take(i));
    let from = line_begin(s, i);
    let to = line_end(s, n);
    assert(utf16_len(s.subrange(from, from)) == 0) by {
        assert(s.subrange(from, from) =~= Seq::<char>::empty());
    }
    lemma_utf16_mono(s, from, from, i);
    if i < to {
        lemma_utf16_step(s, from, i);
    }
    lemma_at_column_unique(s, from, to, column(s, i), i);
}

/// A byte offset on a character boundary converted to a position and back is the
/// same offset, for every offset whose line and column fit a [`Position`].
pub proof fn law_offset_round_trip(s: Seq<char>, offset: int)
    requires
        is_char_boundary(encode_utf8(s), offset),
        newlines(s.take(char_index(s, offset))) <= u32::MAX,
        column(s, char_index(s, offset)) <= u32::MAX,
    ensures
        ({
            let p = position_of(s, clamped_index(s, offset));
            &&& index_of(s, p) is Some
            &&& byte_offset(s, index_of(s, p)->0) == offset
        }),
{
    lemma_boundary_is_offset(s, offset);
    let i = char_index(s, offset);
    lemma_byte_offset_ends(s);
    lemma_byte_offset_mono(s, i, s.len() as int);
    if offset == encode_utf8(s).len() {
        lemma_byte_offset_injective(s, i, s.len() as int);
    }
    law_position_round_trip(s, i);
}

/// A position that is not out of range means an index in the text, on that line and
/// not behind that column.
pub proof fn lemma_index_of(s: Seq<char>, p: Position)
    requires
        index_of(s, p) is Some,
    ensures
        0 <= index_of(s, p)->0 <= s.len(),
        newlines(s.take(index_of(s, p)->0)) == p.line,
        0 <= column(s, index_of(s, p)->0) <= p.character,
        index_of(s, p)->0 < line_end(s, p.line as int) ==> p.character < column(
            s,
            index_of(s, p)->0,
        ) + utf16_width(s[index_of(s, p)->0]),
        index_of(s, p)->0 <= line_end(s, p.line as int),
{
    let i = index_of(s, p)->0;
    let line = p.line as int;
    lemma_line_starts(s);
    let from = line_starts(s)[line];
    let to = line_end(s, line);
    if line + 1 < line_starts(s).len() {
        assert(line_starts(s)[line] < line_starts(s)[line + 1]);
    }
    lemma_at_column(s, from, to, p.character as int);
    lemma_line_of(s, i);
    let n = newlines(s.take(i));
    if n < line {
        assert(line_starts(s)[n + 1] <= line_starts(s)[line]);
    } else if line < n {
        assert(line_starts(s)[line + 1] <= line_starts(s)[n]);
    }
    assert(utf16_len(s.subrange(from, from)) == 0) by {
        assert(s.subrange(from, from) =~= Seq::<char>::empty());
    }
    lemma_utf16_mono(s, from, from, i);
    if i < to {
        lemma_utf16_step(s, from, i);
    }
}

/// Two positions without a line feed between them lie on the same line.
pub proof fn lemma_same_line(s: Seq<char>, j: int, i: int)
    requires
        0 <= j <= i <= s.len(),
        forall|k: int| j <= k < i ==> #[trigger] s[k] != '\n',
    ensures
        newlines(s.take(j)) == newlines(s.take(i)),
        line_begin(s, j) == line_begin(s, i),
        column(s, j) <= column(s, i),
    decreases i - j,
{
    if j < i {
        lemma_same_line(s, j, i - 1);
        assert(s.take(i).drop_last() =~= s.take(i - 1));
        assert(s.take(i).last() == s[i - 1]);
        lemma_line_of(s, i - 1);
        lemma_utf16_step(s, line_begin(s, i), i - 1);
    }
}

/// A line and a column converted to a position and back give the same line, and a
/// column that is the same or, past the end of the line or inside a surrogate pair,
/// smaller.
pub proof fn law_position_snaps_back(s: Seq<char>, p: Position)
    requires
        index_of(s, p) is Some,
    ensures
        position_of(s, index_of(s, p)->0).line == p.line,
        position_of(s, index_of(s, p)->0).character <= p.character,
        position_of(s, index_of(s, p)->0).character < p.character ==> {
            let i = index_of(s, p)->0;
            i == line_end(s, p.line as int) || p.character < column(s, i) + utf16_width(s[i])
        },
{
    lemma_index_of(s, p);
}

/// A column past the end of its line means the end of the line.
pub proof fn law_column_clamps(s: Seq<char>, p: Position)
    requires
        p.line < line_starts(s).len(),
        utf16_len(s.subrange(line_starts(s)[p.line as int], line_end(s, p.line as int)))
            <= p.character,
    ensures
        index_of(s, p) == Some(line_end(s, p.line as int)),
{
}

/// A line number is out of range exactly if the text has fewer line feeds.
pub proof fn law_line_out_of_range(s: Seq<char>, p: Position)
    ensures
        index_of(s, p) is None <==> newlines(s) < p.line,
{
    lemma_line_starts(s);
}

} // verus!
