//! Lines, numbers, fences and counts: what is kept of a text, and what is said of it.

use crate::format::{
    decimal, fence, join_lines, law_fence_is_longer_than_any_run, longest_run, padded, tail_run,
    text_lines, texts, without_cr,
};
use crate::seqs::{first_position, lemma_first_position};
use crate::stats::{char_count, counts, line_count, newline_count, TextStats};
use crate::text::newlines;
use vstd::prelude::*;
use vstd::string::*;
use vstd::utf8::*;

verus! {

/// An empty text has no lines, and a text without a line feed is one line, whatever its
/// length and whatever it ends with.
pub proof fn law_text_without_line_feed_is_a_line(s: Seq<char>)
    requires
        forall|i: int| 0 <= i < s.len() ==> #[trigger] s[i] != '\n',
    ensures
        s.len() == 0 ==> text_lines(s) == Seq::<Seq<char>>::empty(),
        s.len() > 0 ==> text_lines(s) == seq![s],
{
    lemma_first_position(s, '\n');
}

/// What stands before the first line feed is the first line, as it stands, but for one
/// carriage return right before the line feed; the other lines are those of what follows.
pub proof fn law_line_feed_ends_a_line(line: Seq<char>, rest: Seq<char>)
    requires
        forall|i: int| 0 <= i < line.len() ==> #[trigger] line[i] != '\n',
    ensures
        line.len() == 0 || line.last() != '\r' ==> text_lines(line + seq!['\n'] + rest) == seq![line]
            + text_lines(rest),
        text_lines(line + seq!['\r', '\n'] + rest) == seq![line] + text_lines(rest),
{
    lemma_first_line(line, rest);
    let long = line.push('\r');
    assert forall|i: int| 0 <= i < long.len() implies #[trigger] long[i] != '\n' by {
        if i < line.len() {
            assert(long[i] == line[i]);
        }
    }
    lemma_first_line(long, rest);
    assert(long.drop_last() =~= line);
    assert(long + seq!['\n'] + rest =~= line + seq!['\r', '\n'] + rest);
}

proof fn lemma_first_line(line: Seq<char>, rest: Seq<char>)
    requires
        forall|i: int| 0 <= i < line.len() ==> #[trigger] line[i] != '\n',
    ensures
        text_lines(line + seq!['\n'] + rest) == seq![without_cr(line)] + text_lines(rest),
{
    let s = line + seq!['\n'] + rest;
    let k = line.len() as int;
    lemma_first_position(s, '\n');
    assert(s[k] == '\n');
    assert forall|i: int| 0 <= i < k implies #[trigger] s[i] != '\n' by {
        assert(s[i] == line[i]);
    }
    assert(first_position(s, '\n') == k);
    assert(s.take(k) =~= line);
    assert(s.skip(k + 1) =~= rest);
}

/// Each line is a stretch of the text between two line feeds, or an end of the text: the
/// `k`-th one starts behind the `k`-th line feed and goes on to the next one, without the
/// carriage return that may stand right before it.
pub proof fn law_lines_are_stretches(s: Seq<char>, k: int) -> (span: (int, int))
    requires
        0 <= k < text_lines(s).len(),
    ensures
        0 <= span.0 <= span.1 <= s.len(),
        newlines(s.take(span.0)) == k,
        k > 0 ==> span.0 > 0 && s[span.0 - 1] == '\n',
        k == 0 ==> span.0 == 0,
        span.1 == s.len() || s[span.1] == '\n',
        forall|i: int| span.0 <= i < span.1 ==> #[trigger] s[i] != '\n',
        text_lines(s)[k] == (if span.0 < span.1 < s.len() && s[span.1 - 1] == '\r' {
            s.subrange(span.0, span.1 - 1)
        } else {
            s.subrange(span.0, span.1)
        }),
    decreases s.len(),
{
    lemma_first_position(s, '\n');
    let n = first_position(s, '\n');
    assert(s.take(0) =~= Seq::<char>::empty());
    if k == 0 {
        if n == s.len() {
            assert(s.subrange(0, n) =~= s);
        } else {
            assert(s.take(n) =~= s.subrange(0, n));
            assert(n > 0 ==> s.take(n).drop_last() =~= s.subrange(0, n - 1));
        }
        (0, n)
    } else {
        let rest = s.skip(n + 1);
        let inner = law_lines_are_stretches(rest, k - 1);
        let (from, to) = (inner.0 + n + 1, inner.1 + n + 1);
        assert(text_lines(s)[k] == text_lines(rest)[k - 1]);
        assert(s.subrange(from, to) =~= rest.subrange(inner.0, inner.1));
        if inner.0 < inner.1 {
            assert(s.subrange(from, to - 1) =~= rest.subrange(inner.0, inner.1 - 1));
            assert(rest[inner.1 - 1] == s[to - 1]);
        }
        assert forall|i: int| from <= i < to implies #[trigger] s[i] != '\n' by {
            assert(rest[i - n - 1] == s[i]);
        }
        if to < s.len() {
            assert(rest[inner.1] == s[to]);
        }
        if inner.0 > 0 {
            assert(rest[inner.0 - 1] == s[from - 1]);
        }
        let head = s.take(n + 1);
        assert(s.take(from) =~= head + rest.take(inner.0));
        lemma_line_feeds_add_up(head, rest.take(inner.0));
        lemma_one_line_feed(head);
        (from, to)
    }
}

/// The line feeds of two texts add up.
proof fn lemma_line_feeds_add_up(a: Seq<char>, b: Seq<char>)
    ensures
        newlines(a + b) == newlines(a) + newlines(b),
    decreases b.len(),
{
    if b.len() == 0 {
        assert(a + b =~= a);
    } else {
        lemma_line_feeds_add_up(a, b.drop_last());
        assert((a + b).drop_last() =~= a + b.drop_last());
    }
}

/// A text that ends with its only line feed has one.
proof fn lemma_one_line_feed(s: Seq<char>)
    requires
        s.len() > 0,
        forall|i: int| 0 <= i < s.len() - 1 ==> #[trigger] s[i] != '\n',
    ensures
        newlines(s.drop_last()) == 0,
        s.last() == '\n' ==> newlines(s) == 1,
    decreases s.len(),
{
    let init = s.drop_last();
    if init.len() > 0 {
        assert(init.last() == s[s.len() - 2]);
        assert forall|i: int| 0 <= i < init.len() - 1 implies #[trigger] init[i] != '\n' by {
            assert(init[i] == s[i]);
        }
        lemma_one_line_feed(init);
    }
    assert(newlines(init) == 0);
    assert(newlines(s) == newlines(init) + if s.last() == '\n' {
        1int
    } else {
        0int
    });
}

/// Lines are joined by line feeds, one between two lines and none at the ends.
pub proof fn law_joining_lines(lines: Seq<Seq<char>>, line: Seq<char>)
    ensures
        join_lines(Seq::<Seq<char>>::empty()) == Seq::<char>::empty(),
        join_lines(seq![line]) == line,
        lines.len() > 0 ==> join_lines(lines.push(line)) == join_lines(lines) + seq!['\n'] + line,
{
    reveal_strlit("\n");
    assert(lines.push(line).drop_last() =~= lines);
    assert("\n"@ =~= seq!['\n']);
}

/// The first line is joined to the others as each line is to those before it.
proof fn lemma_join_first(line: Seq<char>, lines: Seq<Seq<char>>)
    requires
        lines.len() > 0,
    ensures
        join_lines(seq![line] + lines) == line + seq!['\n'] + join_lines(lines),
    decreases lines.len(),
{
    let all = seq![line] + lines;
    reveal_strlit("\n");
    assert("\n"@ =~= seq!['\n']);
    if lines.len() == 1 {
        assert(all.drop_last() =~= seq![line]);
        assert(join_lines(seq![line]) == line);
        assert(all.last() == lines[0]);
        assert(join_lines(all) =~= line + seq!['\n'] + join_lines(lines));
    } else {
        lemma_join_first(line, lines.drop_last());
        assert(all.drop_last() =~= seq![line] + lines.drop_last());
        assert(join_lines(all) =~= line + seq!['\n'] + join_lines(lines));
    }
}

/// A text without carriage returns is its lines, joined by line feeds, and another line
/// feed if the text ends with one.
pub proof fn law_lines_join_back(s: Seq<char>)
    requires
        forall|i: int| 0 <= i < s.len() ==> #[trigger] s[i] != '\r',
    ensures
        s.len() > 0 && s.last() == '\n' ==> s == join_lines(text_lines(s)) + seq!['\n'],
        s.len() == 0 || s.last() != '\n' ==> s == join_lines(text_lines(s)),
    decreases s.len(),
{
    lemma_first_position(s, '\n');
    let n = first_position(s, '\n');
    if s.len() > 0 && n < s.len() {
        let (line, rest) = (s.take(n), s.skip(n + 1));
        assert forall|i: int| 0 <= i < rest.len() implies #[trigger] rest[i] != '\r' by {
            assert(rest[i] == s[i + n + 1]);
        }
        if n > 0 {
            assert(line.last() == s[n - 1]);
        }
        law_lines_join_back(rest);
        let lines = text_lines(rest);
        assert(text_lines(s) == seq![line] + lines);
        assert(s =~= line + seq!['\n'] + rest);
        if rest.len() == 0 {
            assert(seq![line] + lines =~= seq![line]);
            assert(s =~= join_lines(text_lines(s)) + seq!['\n']);
        } else {
            assert(s.last() == rest.last());
            lemma_join_first(line, lines);
            if s.last() == '\n' {
                assert(s =~= join_lines(text_lines(s)) + seq!['\n']);
            } else {
                assert(s =~= join_lines(text_lines(s)));
            }
        }
    }
}

/// What a list of texts says is what each of them says.
pub proof fn law_what_texts_say(v: Seq<String>, k: int)
    ensures
        texts(v).len() == v.len(),
        0 <= k < v.len() ==> texts(v)[k] == v[k]@,
{
}

/// A number is written in the digits `0` to `9`, the last of them for what is left over
/// by tens.
pub proof fn law_how_numbers_are_written(n: nat)
    ensures
        n < 10 ==> decimal(n).len() == 1 && decimal(n)[0] as int == 48 + n,
        n >= 10 ==> decimal(n).len() == decimal(n / 10).len() + 1 && decimal(n).drop_last()
            == decimal(n / 10) && decimal(n).last() as int == 48 + n % 10,
{
    if n >= 10 {
        assert(decimal(n).drop_last() =~= decimal(n / 10));
    }
}

/// Filling up puts zeros before a number, no more than the width asks for.
pub proof fn law_filling_up(n: nat, width: nat)
    ensures
        decimal(n).len() >= width ==> padded(n, width) == decimal(n),
        decimal(n).len() < width ==> {
            let fill = width - decimal(n).len();
            &&& padded(n, width).len() == width
            &&& padded(n, width).skip(fill) == decimal(n)
            &&& forall|i: int| 0 <= i < fill ==> #[trigger] padded(n, width)[i] == '0'
        },
{
    if decimal(n).len() < width {
        assert(padded(n, width).skip(width - decimal(n).len()) =~= decimal(n));
    }
}

/// The fence around a text is made of backticks, at least four, and longer than any run
/// of them in the text; and it is no longer than that takes.
pub proof fn law_what_a_fence_is(s: Seq<char>, from: int, to: int)
    requires
        0 <= from <= to <= s.len(),
        forall|i: int| from <= i < to ==> #[trigger] s[i] == '`',
    ensures
        forall|i: int| 0 <= i < fence(s).len() ==> #[trigger] fence(s)[i] == '`',
        fence(s).len() >= 4,
        fence(s).len() > to - from,
        fence(s).len() > 4 ==> exists|a: int, b: int|
            0 <= a <= b <= s.len() && fence(s).len() == b - a + 1 && #[trigger] s.subrange(a, b)
                == Seq::new((b - a) as nat, |i: int| '`'),
{
    law_fence_is_longer_than_any_run(s, from, to);
    lemma_runs(s, from, to);
    if fence(s).len() > 4 {
        let a = lemma_run_exists(s);
        let n = longest_run(s) as int;
        let b = a + n;
        assert(s.subrange(a, b) =~= Seq::new((b - a) as nat, |i: int| '`'));
    }
}

/// No run is longer than the longest.
proof fn lemma_runs(s: Seq<char>, from: int, to: int)
    requires
        0 <= from <= to <= s.len(),
        forall|i: int| from <= i < to ==> #[trigger] s[i] == '`',
    ensures
        to - from <= longest_run(s),
        to == s.len() ==> to - from <= tail_run(s),
    decreases s.len(),
{
    if s.len() > 0 {
        let init = s.drop_last();
        let end = if to < s.len() {
            to
        } else {
            s.len() - 1
        };
        if from <= end {
            assert forall|i: int| from <= i < end implies #[trigger] init[i] == '`' by {
                assert(s[i] == '`');
            }
            lemma_runs(init, from, end);
        }
        if to == s.len() && from < to {
            assert(s[to - 1] == '`');
        }
    }
}

/// The longest run is a run.
proof fn lemma_run_exists(s: Seq<char>) -> (a: int)
    ensures
        0 <= a <= a + longest_run(s) <= s.len(),
        forall|i: int| a <= i < a + longest_run(s) ==> #[trigger] s[i] == '`',
    decreases s.len(),
{
    if s.len() == 0 {
        0
    } else {
        let init = s.drop_last();
        let a = lemma_run_exists(init);
        lemma_tail_is_run(s);
        if tail_run(s) > longest_run(init) {
            s.len() - tail_run(s)
        } else {
            assert forall|i: int| a <= i < a + longest_run(s) implies #[trigger] s[i] == '`' by {
                assert(init[i] == '`');
            }
            a
        }
    }
}

/// The backticks at the end are backticks.
proof fn lemma_tail_is_run(s: Seq<char>)
    ensures
        tail_run(s) <= s.len(),
        forall|i: int| s.len() - tail_run(s) <= i < s.len() ==> #[trigger] s[i] == '`',
    decreases s.len(),
{
    if s.len() > 0 && s.last() == '`' {
        let init = s.drop_last();
        lemma_tail_is_run(init);
        assert forall|i: int| s.len() - tail_run(s) <= i < s.len() implies #[trigger] s[i] == '`' by {
            if i < init.len() {
                assert(init[i] == '`');
            }
        }
    }
}

/// A byte counts as a line feed if it is one, and as a character unless it goes on with
/// one. Bytes that end without a line feed have one line more than line feeds.
pub proof fn law_what_is_counted(bytes: Seq<u8>, b: u8, stats: TextStats)
    ensures
        newline_count(Seq::<u8>::empty()) == 0,
        char_count(Seq::<u8>::empty()) == 0,
        newline_count(bytes.push(b)) == newline_count(bytes) + (if b == 10 {
            1int
        } else {
            0int
        }),
        char_count(bytes.push(b)) == char_count(bytes) + (if 128 <= b < 192 {
            0int
        } else {
            1int
        }),
        line_count(Seq::<u8>::empty()) == 0,
        line_count(bytes.push(b)) == (if b == 10 {
            newline_count(bytes.push(b))
        } else {
            newline_count(bytes.push(b)) + 1
        }),
        counts(stats, bytes) <==> stats.lines == line_count(bytes) && stats.chars == char_count(bytes),
{
    assert(bytes.push(b).drop_last() =~= bytes);
}

} // verus!
