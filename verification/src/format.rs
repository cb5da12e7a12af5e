//! Numbers, lines and fences in texts.

use crate::chars::{chars_of, text_of};
use crate::refs::{all_digits, decimal_value, digit};
use vstd::prelude::*;
use vstd::string::*;

verus! {

/// The digit that stands for `d`.
pub open spec fn digit_char(d: nat) -> char {
    (('0' as u32) + d) as char
}

/// A number in decimal digits.
pub open spec fn decimal(n: nat) -> Seq<char>
    decreases n,
{
    if n < 10 {
        seq![digit_char(n)]
    } else {
        decimal(n / 10).push(digit_char(n % 10))
    }
}

/// `n` zeros.
pub open spec fn zeros(n: nat) -> Seq<char> {
    Seq::new(n, |i: int| '0')
}

/// A number in decimal digits, filled up with zeros to at least `width` digits.
pub open spec fn padded(n: nat, width: nat) -> Seq<char> {
    let digits = decimal(n);
    if digits.len() < width {
        zeros((width - digits.len()) as nat) + digits
    } else {
        digits
    }
}

/// The lines of a text. A line ends with `\n` or `\r\n`, which are not part of it;
/// the last line may lack its end.
pub open spec fn text_lines(s: Seq<char>) -> Seq<Seq<char>>
    decreases s.len(),
{
    if s.len() == 0 {
        Seq::empty()
    } else {
        let k = crate::seqs::first_position(s, '\n');
        if k < 0 || k >= s.len() {
            seq![s]
        } else {
            seq![without_cr(s.take(k))] + text_lines(s.skip(k + 1))
        }
    }
}

/// A line without the `\r` at its end.
pub open spec fn without_cr(line: Seq<char>) -> Seq<char> {
    if line.len() > 0 && line.last() == '\r' {
        line.drop_last()
    } else {
        line
    }
}

/// Lines joined by line feeds.
pub open spec fn join_lines(lines: Seq<Seq<char>>) -> Seq<char>
    decreases lines.len(),
{
    if lines.len() == 0 {
        Seq::empty()
    } else if lines.len() == 1 {
        lines[0]
    } else {
        join_lines(lines.drop_last()) + "\n"@ + lines.last()
    }
}

/// What texts say, one by one.
pub open spec fn texts(v: Seq<String>) -> Seq<Seq<char>> {
    v.map_values(|s: String| s@)
}

/// Number of backticks at the end of a text.
pub open spec fn tail_run(s: Seq<char>) -> nat
    decreases s.len(),
{
    if s.len() == 0 || s.last() != '`' {
        0
    } else {
        tail_run(s.drop_last()) + 1
    }
}

/// Length of the longest run of backticks in a text.
pub open spec fn longest_run(s: Seq<char>) -> nat
    decreases s.len(),
{
    if s.len() == 0 {
        0
    } else {
        let before = longest_run(s.drop_last());
        if tail_run(s) > before {
            tail_run(s)
        } else {
            before
        }
    }
}

/// Length of the fence around a text: four backticks, or more if the text holds as
/// many in a row.
pub open spec fn fence_len(s: Seq<char>) -> nat {
    if longest_run(s) < 4 {
        4
    } else {
        longest_run(s) + 1
    }
}

/// The fence around a text.
pub open spec fn fence(s: Seq<char>) -> Seq<char> {
    Seq::new(fence_len(s), |i: int| '`')
}

/// The number in decimal digits.
pub fn decimal_text(n: u64) -> (s: String)
    ensures
        s@ == decimal(n as nat),
    decreases n,
{
    let mut s = if n < 10 {
        String::new()
    } else {
        decimal_text(n / 10)
    };
    let d: u8 = (n % 10) as u8;
    s.push((0x30u8 + d) as char);
    assert(s@ =~= decimal(n as nat));
    s
}

/// The number in decimal digits, filled up with zeros to at least `width` digits.
pub fn padded_text(n: u64, width: usize) -> (s: String)
    ensures
        s@ == padded(n as nat, width as nat),
{
    let digits = decimal_text(n);
    let chars = chars_of(digits.as_str());
    let mut s = String::new();
    let mut i: usize = chars.len();
    while i < width
        invariant
            chars@ == decimal(n as nat),
            chars@.len() <= i,
            i <= width || i == chars@.len(),
            s@ == zeros((i - chars@.len()) as nat),
        decreases width - i,
    {
        s.push('0');
        i = i + 1;
        assert(s@ =~= zeros((i - chars@.len()) as nat));
    }
    s.append(digits.as_str());
    assert(s@ =~= padded(n as nat, width as nat));
    s
}

/// The lines of a text.
pub fn split_lines(text: &str) -> (lines: Vec<String>)
    ensures
        texts(lines@) == text_lines(text@),
{
    let chars = chars_of(text);
    let ghost s = text@;
    let mut lines: Vec<String> = Vec::new();
    let mut start: usize = 0;
    let mut i: usize = 0;
    assert(s.skip(0) =~= s);
    assert(texts(lines@) + text_lines(s) =~= text_lines(s));
    while i < chars.len()
        invariant
            chars@ == s,
            0 <= start <= i <= s.len(),
            forall|k: int| start <= k < i ==> #[trigger] s[k] != '\n',
            texts(lines@) + text_lines(s.skip(start as int)) == text_lines(s),
        decreases chars.len() - i,
    {
        if chars[i] == '\n' {
            let ghost rest = s.skip(start as int);
            let ghost before = lines@;
            let end: usize = if i > start && chars[i - 1] == '\r' {
                i - 1
            } else {
                i
            };
            let line = text_of(chars.as_slice(), start, end);
            proof {
                let k = i - start;
                crate::seqs::lemma_first_position(rest, '\n');
                assert(rest[k] == '\n');
                assert forall|j: int| 0 <= j < k implies #[trigger] rest[j] != '\n' by {
                    assert(rest[j] == s[start + j]);
                }
                assert(crate::seqs::first_position(rest, '\n') == k);
                assert(rest.skip(k + 1) =~= s.skip(i + 1));
                assert(rest.take(k) =~= s.subrange(start as int, i as int));
                assert(without_cr(rest.take(k)) =~= line@);
                assert(text_lines(rest) == seq![line@] + text_lines(s.skip(i + 1)));
            }
            lines.push(line);
            proof {
                assert(texts(lines@) =~= texts(before).push(line@));
                assert(texts(lines@) + text_lines(s.skip(i + 1)) =~= texts(before) + text_lines(
                    rest,
                ));
            }
            start = i + 1;
        }
        i = i + 1;
    }
    let ghost rest = s.skip(start as int);
    if start < chars.len() {
        let ghost before = lines@;
        let line = text_of(chars.as_slice(), start, chars.len());
        proof {
            crate::seqs::lemma_first_position(rest, '\n');
            assert forall|j: int| 0 <= j < rest.len() implies #[trigger] rest[j] != '\n' by {
                assert(rest[j] == s[start + j]);
            }
            assert(line@ =~= rest);
            assert(text_lines(rest) == seq![line@]);
        }
        lines.push(line);
        assert(texts(lines@) =~= texts(before) + seq![line@]);
    } else {
        assert(rest =~= Seq::<char>::empty());
        assert(texts(lines@) + text_lines(rest) =~= texts(lines@));
    }
    lines
}

/// The first `n` texts, joined by line feeds.
pub fn join_first(lines: &Vec<String>, n: usize) -> (s: String)
    requires
        n <= lines@.len(),
    ensures
        s@ == join_lines(texts(lines@).take(n as int)),
{
    let ghost all = texts(lines@);
    let mut s = String::new();
    let mut i: usize = 0;
    assert(s@ =~= join_lines(all.take(0)));
    while i < n
        invariant
            all == texts(lines@),
            0 <= i <= n <= lines@.len(),
            s@ == join_lines(all.take(i as int)),
        decreases n - i,
    {
        proof {
            assert(all.take(i + 1).drop_last() =~= all.take(i as int));
            assert(all.take(i + 1).last() == lines@[i as int]@);
        }
        if i > 0 {
            s.append("\n");
        }
        s.append(lines[i].as_str());
        assert(s@ =~= join_lines(all.take(i + 1)));
        i = i + 1;
    }
    s
}

/// The fence around a text.
pub fn fence_for(text: &str) -> (f: String)
    ensures
        f@ == fence(text@),
{
    let chars = chars_of(text);
    let ghost s = text@;
    let mut longest: usize = 0;
    let mut run: usize = 0;
    let mut i: usize = 0;
    assert(s.take(0) =~= Seq::<char>::empty());
    while i < chars.len()
        invariant
            chars@ == s,
            0 <= i <= s.len(),
            run == tail_run(s.take(i as int)),
            longest == longest_run(s.take(i as int)),
            run <= i,
            longest <= i,
        decreases chars.len() - i,
    {
        assert(s.take(i + 1).drop_last() =~= s.take(i as int));
        if chars[i] == '`' {
            run = run + 1;
        } else {
            run = 0;
        }
        if run > longest {
            longest = run;
        }
        i = i + 1;
    }
    assert(s.take(i as int) =~= s);
    let most: usize = if longest < 4 {
        3
    } else {
        longest
    };
    let mut f = String::new();
    let mut n: usize = 0;
    while n < most
        invariant
            n <= most,
            f@ == Seq::new(n as nat, |i: int| '`'),
        decreases most - n,
    {
        f.push('`');
        n = n + 1;
        assert(f@ =~= Seq::new(n as nat, |i: int| '`'));
    }
    f.push('`');
    assert(f@ =~= fence(s));
    f
}

/// The digits of a number stand for that number.
pub proof fn law_decimal_reads_back(n: nat)
    ensures
        all_digits(decimal(n)),
        decimal(n).len() > 0,
        decimal_value(decimal(n)) == n,
    decreases n,
{
    let digits = decimal(n);
    if n >= 10 {
        law_decimal_reads_back(n / 10);
        assert(digits.drop_last() =~= decimal(n / 10));
        assert forall|i: int| 0 <= i < digits.len() implies digit(#[trigger] digits[i]) by {
            if i < digits.len() - 1 {
                assert(digits[i] == decimal(n / 10)[i]);
            }
        }
    } else {
        assert(digits.drop_last() =~= Seq::<char>::empty());
        assert(decimal_value(digits.drop_last()) == 0);
    }
    assert(digits.last() == digit_char(n % 10));
}

/// Whether the first text comes before the second one in the order of their characters.
pub open spec fn text_less(a: Seq<char>, b: Seq<char>) -> bool {
    exists|k: int|
        0 <= k < a.len() && k < b.len() && #[trigger] a.take(k) == b.take(k) && a[k] < b[k]
}

/// Filling up with zeros keeps the value.
proof fn lemma_zeros_keep_value(k: nat, digits: Seq<char>)
    requires
        all_digits(digits),
    ensures
        all_digits(zeros(k) + digits),
        decimal_value(zeros(k) + digits) == decimal_value(digits),
    decreases k + digits.len(),
{
    let all = zeros(k) + digits;
    if digits.len() > 0 {
        assert forall|i: int| 0 <= i < digits.drop_last().len() implies digit(
            #[trigger] digits.drop_last()[i],
        ) by {
            assert(digits[i] == digits.drop_last()[i]);
        }
        lemma_zeros_keep_value(k, digits.drop_last());
        assert(all.drop_last() =~= zeros(k) + digits.drop_last());
        assert forall|i: int| 0 <= i < all.len() implies digit(#[trigger] all[i]) by {
            if i >= k {
                assert(all[i] == digits[i - k]);
            }
        }
    } else if k > 0 {
        lemma_zeros_keep_value((k - 1) as nat, digits);
        assert(all.drop_last() =~= zeros((k - 1) as nat) + digits);
    }
}

/// Digits of the same length that stand for a smaller number come first as a text.
proof fn lemma_digits_order(a: Seq<char>, b: Seq<char>)
    requires
        a.len() == b.len(),
        all_digits(a),
        all_digits(b),
    ensures
        decimal_value(a) == decimal_value(b) ==> a == b,
        decimal_value(a) < decimal_value(b) ==> text_less(a, b),
    decreases a.len(),
{
    if a.len() > 0 {
        let (x, y) = (a.drop_last(), b.drop_last());
        assert(all_digits(x)) by {
            assert forall|i: int| 0 <= i < x.len() implies digit(#[trigger] x[i]) by {
                assert(x[i] == a[i]);
            }
        }
        assert(all_digits(y)) by {
            assert forall|i: int| 0 <= i < y.len() implies digit(#[trigger] y[i]) by {
                assert(y[i] == b[i]);
            }
        }
        assert(digit(a[a.len() - 1]) && digit(b[b.len() - 1]));
        lemma_digits_order(x, y);
        assert(a =~= x.push(a.last()));
        assert(b =~= y.push(b.last()));
        if decimal_value(a) < decimal_value(b) {
            if decimal_value(x) < decimal_value(y) {
                let k = choose|k: int|
                    0 <= k < x.len() && k < y.len() && #[trigger] x.take(k) == y.take(k) && x[k]
                        < y[k];
                assert(a.take(k) =~= x.take(k));
                assert(b.take(k) =~= y.take(k));
            } else {
                let k = a.len() - 1;
                assert(a.take(k) =~= x);
                assert(b.take(k) =~= y);
            }
        }
    } else {
        assert(a =~= b);
    }
}

/// Numbers filled up to the same width come in the same order as texts.
pub proof fn law_padded_keeps_order(m: nat, n: nat, width: nat)
    requires
        m < n,
        decimal(m).len() <= width,
        decimal(n).len() <= width,
    ensures
        padded(m, width).len() == width,
        padded(n, width).len() == width,
        text_less(padded(m, width), padded(n, width)),
{
    law_decimal_reads_back(m);
    law_decimal_reads_back(n);
    lemma_zeros_keep_value((width - decimal(m).len()) as nat, decimal(m));
    lemma_zeros_keep_value((width - decimal(n).len()) as nat, decimal(n));
    assert(zeros(0) + decimal(m) =~= decimal(m));
    assert(zeros(0) + decimal(n) =~= decimal(n));
    lemma_digits_order(padded(m, width), padded(n, width));
}

/// A run of backticks at the end of a text is as long as `tail_run` says.
proof fn lemma_tail_run(s: Seq<char>, n: nat)
    requires
        n <= s.len(),
        forall|i: int| s.len() - n <= i < s.len() ==> #[trigger] s[i] == '`',
    ensures
        tail_run(s) >= n,
    decreases n,
{
    if n > 0 {
        assert(s[s.len() - 1] == '`');
        lemma_tail_run(s.drop_last(), (n - 1) as nat);
    }
}

/// No run of backticks in a text is longer than `longest_run` says.
proof fn lemma_longest_run(s: Seq<char>, from: int, to: int)
    requires
        0 <= from <= to <= s.len(),
        forall|i: int| from <= i < to ==> #[trigger] s[i] == '`',
    ensures
        to - from <= longest_run(s),
    decreases s.len(),
{
    if s.len() > 0 {
        if to == s.len() {
            lemma_tail_run(s, (to - from) as nat);
        } else {
            lemma_longest_run(s.drop_last(), from, to);
        }
    }
}

/// A text never holds the fence around it: the block cannot end inside the text.
pub proof fn law_fence_is_longer_than_any_run(s: Seq<char>, from: int, to: int)
    requires
        0 <= from <= to <= s.len(),
    ensures
        s.subrange(from, to) != fence(s),
{
    if s.subrange(from, to) == fence(s) {
        assert(s.subrange(from, to).len() == to - from);
        assert forall|i: int| from <= i < to implies #[trigger] s[i] == '`' by {
            assert(s.subrange(from, to)[i - from] == s[i]);
            assert(fence(s)[i - from] == '`');
        }
        lemma_longest_run(s, from, to);
    }
}

} // verus!
