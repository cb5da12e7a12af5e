//! Line and character counts of a text file.

use crate::chars::lemma_encode_concat;
use crate::format::text_lines;
use crate::seqs::{first_position, lemma_first_position};
use vstd::prelude::*;
use vstd::utf8::*;

verus! {

/// Line and character counts of a text file, streamed so it stays cheap even when
/// the file is far larger than the preview read limit. Characters are counted as
/// UTF-8 scalar values (non-continuation bytes). A trailing fragment without a
/// final newline counts as a line.
#[derive(Debug, Clone, Copy, PartialEq, Eq)]
pub struct TextStats {
    pub lines: usize,
    pub chars: usize,
}

/// The byte that ends a line.
pub const NEWLINE: u8 = 0x0a;

/// Number of line feeds.
pub open spec fn newline_count(bytes: Seq<u8>) -> nat
    decreases bytes.len(),
{
    if bytes.len() == 0 {
        0
    } else {
        newline_count(bytes.drop_last()) + if bytes.last() == NEWLINE {
            1nat
        } else {
            0nat
        }
    }
}

/// Number of bytes that are not UTF-8 continuation bytes.
pub open spec fn char_count(bytes: Seq<u8>) -> nat
    decreases bytes.len(),
{
    if bytes.len() == 0 {
        0
    } else {
        char_count(bytes.drop_last()) + if is_continuation_byte(bytes.last()) {
            0nat
        } else {
            1nat
        }
    }
}

/// Number of lines: one for each line feed, and one for what follows the last one.
pub open spec fn line_count(bytes: Seq<u8>) -> nat {
    if bytes.len() > 0 && bytes.last() != NEWLINE {
        newline_count(bytes) + 1
    } else {
        newline_count(bytes)
    }
}

/// Whether `stats` are the counts of a file with these contents.
pub open spec fn counts(stats: TextStats, bytes: Seq<u8>) -> bool {
    &&& stats.lines == line_count(bytes)
    &&& stats.chars == char_count(bytes)
}

/// Counts lines and characters while the contents of a file go by. Its view is what
/// went by so far.
pub struct StatsCounter {
    size: usize,
    newlines: usize,
    chars: usize,
    last: u8,
    seen: Ghost<Seq<u8>>,
}

impl View for StatsCounter {
    type V = Seq<u8>;

    closed spec fn view(&self) -> Seq<u8> {
        self.seen@
    }
}

impl StatsCounter {
    #[verifier::type_invariant]
    spec fn well_formed(self) -> bool {
        &&& self.size == self.seen@.len()
        &&& self.newlines == newline_count(self.seen@)
        &&& self.chars == char_count(self.seen@)
        &&& self.last == (if self.seen@.len() == 0 {
            NEWLINE
        } else {
            self.seen@.last()
        })
    }

    pub fn new() -> (c: StatsCounter)
        ensures
            c@ == Seq::<u8>::empty(),
    {
        StatsCounter { size: 0, newlines: 0, chars: 0, last: NEWLINE, seen: Ghost(Seq::empty()) }
    }

    /// Whether `more` bytes can still be counted.
    pub fn has_room(&self, more: usize) -> (b: bool)
        ensures
            b == (self@.len() + more <= usize::MAX),
    {
        proof {
            use_type_invariant(self);
        }
        more <= usize::MAX - self.size
    }

    /// Counts the next part of the file.
    pub fn feed(self, chunk: &[u8]) -> (c: StatsCounter)
        requires
            self@.len() + chunk@.len() <= usize::MAX,
        ensures
            c@ == self@ + chunk@,
    {
        proof {
            use_type_invariant(&self);
        }
        let mut newlines: usize = self.newlines;
        let mut chars: usize = self.chars;
        let mut last: u8 = self.last;
        let ghost before = self@;
        let mut i: usize = 0;
        proof {
            lemma_counts_fit(before);
            assert(before + chunk@.take(0) =~= before);
        }
        while i < chunk.len()
            invariant
                0 <= i <= chunk@.len(),
                before.len() + chunk@.len() <= usize::MAX,
                newlines == newline_count(before + chunk@.take(i as int)),
                chars == char_count(before + chunk@.take(i as int)),
                newlines <= before.len() + i,
                chars <= before.len() + i,
                last == (if before.len() + i == 0 {
                    NEWLINE
                } else {
                    (before + chunk@.take(i as int)).last()
                }),
            decreases chunk.len() - i,
        {
            let b: u8 = chunk[i];
            proof {
                let s = before + chunk@.take(i + 1);
                assert(s.drop_last() =~= before + chunk@.take(i as int));
                assert(s.last() == b);
            }
            // UTF-8 continuation bytes are 0b10xxxxxx; everything else starts a char.
            if !(b >= 0x80 && b < 0xc0) {
                chars = chars + 1;
            }
            if b == NEWLINE {
                newlines = newlines + 1;
            }
            last = b;
            i = i + 1;
        }
        proof {
            assert(chunk@.take(i as int) =~= chunk@);
        }
        StatsCounter {
            size: self.size + chunk.len(),
            newlines,
            chars,
            last,
            seen: Ghost(before + chunk@),
        }
    }

    /// The counts of what went by.
    pub fn finish(self) -> (stats: TextStats)
        ensures
            counts(stats, self@),
    {
        proof {
            use_type_invariant(&self);
            if self@.len() > 0 {
                lemma_counts_fit(self@.drop_last());
            }
        }
        let lines: usize = if self.last != NEWLINE {
            self.newlines + 1
        } else {
            self.newlines
        };
        TextStats { lines, chars: self.chars }
    }
}

/// The counts of a file with the given contents.
pub fn text_stats(contents: &[u8]) -> (stats: TextStats)
    ensures
        counts(stats, contents@),
{
    assert(contents.len() == contents@.len());
    let c = StatsCounter::new().feed(contents);
    assert(c@ =~= contents@);
    c.finish()
}

/// There are no more line feeds or characters than bytes.
proof fn lemma_counts_fit(bytes: Seq<u8>)
    ensures
        newline_count(bytes) <= bytes.len(),
        char_count(bytes) <= bytes.len(),
    decreases bytes.len(),
{
    if bytes.len() > 0 {
        lemma_counts_fit(bytes.drop_last());
    }
}

/// Counting a file in parts gives the sums of the parts' counts.
proof fn lemma_counts_concat(a: Seq<u8>, b: Seq<u8>)
    ensures
        newline_count(a + b) == newline_count(a) + newline_count(b),
        char_count(a + b) == char_count(a) + char_count(b),
    decreases b.len(),
{
    if b.len() == 0 {
        assert(a + b =~= a);
    } else {
        lemma_counts_concat(a, b.drop_last());
        assert((a + b).drop_last() =~= a + b.drop_last());
    }
}

/// The values that bytes of an encoded character have.
proof fn lemma_byte_values(c: u32)
    by (bit_vector)
    ensures
        c < 0x80 ==> leading_byte_width_1(c) == c,
        leading_byte_width_2(c) >= 0xc0,
        leading_byte_width_3(c) >= 0xc0,
        leading_byte_width_4(c) >= 0xc0,
        0x80 <= last_continuation_byte(c) <= 0xbf,
        0x80 <= second_last_continuation_byte(c) <= 0xbf,
        0x80 <= third_last_continuation_byte(c) <= 0xbf,
{
}

/// A character has one byte that is no continuation byte, and it ends with a line
/// feed exactly if it is one.
proof fn lemma_char_counts(c: char)
    ensures
        encode_scalar(c as u32).len() > 0,
        char_count(encode_scalar(c as u32)) == 1,
        newline_count(encode_scalar(c as u32)) == (if c == '\n' {
            1nat
        } else {
            0nat
        }),
        (encode_scalar(c as u32).last() == NEWLINE) == (c == '\n'),
{
    reveal_with_fuel(char_count, 5);
    reveal_with_fuel(newline_count, 5);
    let u = c as u32;
    let bytes = encode_scalar(u);
    lemma_byte_values(u);
    assert(bytes.drop_last().len() == bytes.len() - 1);
    if has_width_1_encoding(u) {
        assert(bytes.drop_last() =~= seq![]);
    } else if has_width_2_encoding(u) {
        assert(bytes.drop_last() =~= seq![bytes[0]]);
    } else if has_width_3_encoding(u) {
        assert(bytes.drop_last() =~= seq![bytes[0], bytes[1]]);
        assert(bytes.drop_last().drop_last() =~= seq![bytes[0]]);
    } else {
        assert(bytes.drop_last() =~= seq![bytes[0], bytes[1], bytes[2]]);
        assert(bytes.drop_last().drop_last() =~= seq![bytes[0], bytes[1]]);
        assert(bytes.drop_last().drop_last().drop_last() =~= seq![bytes[0]]);
    }
}

/// A file can be counted in parts, wherever it is cut: the characters add up, and so
/// do the lines, if the line that the cut falls into is counted with the second part.
pub proof fn law_parts_add_up(a: Seq<u8>, b: Seq<u8>, parts: TextStats, whole: TextStats)
    requires
        parts.chars == char_count(a) + char_count(b),
        parts.lines == (if b.len() == 0 {
            line_count(a)
        } else {
            newline_count(a) + line_count(b)
        }),
        counts(whole, a + b),
    ensures
        parts == whole,
{
    lemma_counts_concat(a, b);
    if b.len() == 0 {
        assert(a + b =~= a);
    } else {
        assert((a + b).last() == b.last());
    }
}

/// The characters of a UTF-8 text are its Unicode scalar values.
pub proof fn law_chars_are_scalar_values(s: Seq<char>)
    ensures
        char_count(encode_utf8(s)) == s.len(),
    decreases s.len(),
{
    if s.len() > 0 {
        law_chars_are_scalar_values(s.drop_first());
        lemma_char_counts(s[0]);
        lemma_counts_concat(encode_scalar(s[0] as u32), encode_utf8(s.drop_first()));
    }
}

/// A text ends with a line feed exactly if its last byte is one.
proof fn lemma_last_byte(s: Seq<char>)
    requires
        s.len() > 0,
    ensures
        encode_utf8(s).len() > 0,
        (encode_utf8(s).last() == NEWLINE) == (s.last() == '\n'),
    decreases s.len(),
{
    lemma_char_counts(s[0]);
    let rest = s.drop_first();
    if rest.len() > 0 {
        lemma_last_byte(rest);
        assert(encode_utf8(s).last() == encode_utf8(rest).last());
        assert(s.last() == rest.last());
    } else {
        assert(encode_utf8(rest) =~= Seq::<u8>::empty());
        assert(encode_utf8(s) =~= encode_scalar(s[0] as u32));
    }
}

/// A text without line feeds has no byte that is one.
proof fn lemma_no_newline(s: Seq<char>)
    requires
        forall|i: int| 0 <= i < s.len() ==> #[trigger] s[i] != '\n',
    ensures
        newline_count(encode_utf8(s)) == 0,
    decreases s.len(),
{
    if s.len() > 0 {
        lemma_char_counts(s[0]);
        let rest = s.drop_first();
        assert forall|i: int| 0 <= i < rest.len() implies #[trigger] rest[i] != '\n' by {
            assert(rest[i] == s[i + 1]);
        }
        lemma_no_newline(rest);
        lemma_counts_concat(encode_scalar(s[0] as u32), encode_utf8(rest));
    }
}

/// The number of lines that is counted is the number of lines that the text has.
pub proof fn law_lines_are_text_lines(s: Seq<char>)
    ensures
        line_count(encode_utf8(s)) == text_lines(s).len(),
    decreases s.len(),
{
    if s.len() > 0 {
        lemma_first_position(s, '\n');
        lemma_last_byte(s);
        let k = first_position(s, '\n');
        if k == s.len() {
            lemma_no_newline(s);
        } else {
            let (head, rest) = (s.take(k), s.skip(k + 1));
            assert(s =~= head + (seq!['\n'] + rest));
            assert((seq!['\n'] + rest).drop_first() =~= rest);
            lemma_encode_concat(head, seq!['\n'] + rest);
            assert forall|i: int| 0 <= i < head.len() implies #[trigger] head[i] != '\n' by {
                assert(head[i] == s[i]);
            }
            lemma_no_newline(head);
            lemma_char_counts('\n');
            lemma_counts_concat(encode_utf8(head), encode_utf8(seq!['\n'] + rest));
            lemma_counts_concat(encode_scalar('\n' as u32), encode_utf8(rest));
            law_lines_are_text_lines(rest);
            if rest.len() > 0 {
                lemma_last_byte(rest);
                assert(rest.last() == s.last());
            } else {
                assert(s.last() == '\n');
            }
        }
    }
}

} // verus!
