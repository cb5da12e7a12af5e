//! Extraction of `@path` references from prompt text.
//!
//! Grammar (informal):
//!   - `@` must be at the start of the text or preceded by a boundary char
//!     (whitespace, brackets, quotes) so `user@example.com` is not a reference.
//!   - The path runs until whitespace or a terminator (brackets, quotes, `,` `|`).
//!   - Trailing sentence punctuation (`.` `,` `;` `:` `!` `?`) is stripped so
//!     "see @src/main.rs." refers to `src/main.rs`.
//!   - An optional `:LINE` or `:LINE-LINE` suffix is parsed as a line hint.
//!
//! The specifications below count characters; the byte offsets that callers see
//! come from [`byte_offset`].

use crate::chars::{
    byte_offset, char_index, char_utf8_width, chars_of, is_white_space, text_of, white_space,
};
use crate::chars::{
    lemma_boundary_is_offset, lemma_byte_offset_ends, lemma_byte_offset_mono,
    lemma_byte_offset_split, lemma_byte_offset_step, lemma_offset_is_boundary, lemma_utf8_width,
    slice_text,
};
use crate::seqs::{first_position, last_position};
use crate::seqs::{lemma_first_position, lemma_last_position, lemma_last_position_unique};
use vstd::prelude::*;
use vstd::string::*;
use vstd::utf8::*;

verus! {

/// A resolved `@path` token in the document.
#[derive(Debug, Clone, PartialEq, Eq)]
pub struct PathRef {
    /// Byte offset of the `@` character.
    pub start: usize,
    /// Byte offset one past the last character of the reference (after
    /// trailing punctuation has been stripped).
    pub end: usize,
    /// The path text without `@` and without any `:LINE` suffix.
    pub path: String,
    /// 1-based line hint from a `:LINE` suffix, if present.
    pub line: Option<u32>,
}

/// The `@` token currently being typed at the cursor, used for completion.
#[derive(Debug, Clone, PartialEq, Eq)]
pub struct Query {
    /// Byte offset of the `@` character.
    pub at: usize,
    /// Text between `@` and the cursor.
    pub text: String,
}

/// What a [`PathRef`] says.
#[verifier::ext_equal]
pub struct PathRefView {
    pub start: int,
    pub end: int,
    pub path: Seq<char>,
    pub line: Option<u32>,
}

impl View for PathRef {
    type V = PathRefView;

    open spec fn view(&self) -> PathRefView {
        PathRefView {
            start: self.start as int,
            end: self.end as int,
            path: self.path@,
            line: self.line,
        }
    }
}

/// What a [`Query`] says.
#[verifier::ext_equal]
pub struct QueryView {
    pub at: int,
    pub text: Seq<char>,
}

impl View for Query {
    type V = QueryView;

    open spec fn view(&self) -> QueryView {
        QueryView { at: self.at as int, text: self.text@ }
    }
}

/// The characters that end a path token.
pub open spec fn terminator(c: char) -> bool {
    ||| white_space(c)
    ||| c == '('
    ||| c == ')'
    ||| c == '['
    ||| c == ']'
    ||| c == '{'
    ||| c == '}'
    ||| c == '<'
    ||| c == '>'
    ||| c == '"'
    ||| c == '\''
    ||| c == '`'
    ||| c == ','
    ||| c == '|'
}

/// Whether an `@` after `prev` can start a reference.
pub open spec fn boundary(prev: Option<char>) -> bool {
    match prev {
        None => true,
        Some(c) => {
            ||| white_space(c)
            ||| c == '('
            ||| c == ')'
            ||| c == '['
            ||| c == ']'
            ||| c == '{'
            ||| c == '}'
            ||| c == '<'
            ||| c == '>'
            ||| c == '"'
            ||| c == '\''
            ||| c == '`'
            ||| c == ','
            ||| c == '|'
            ||| c == '*'
            ||| c == '_'
        },
    }
}

/// Punctuation that follows a path in prose and is not part of it.
pub open spec fn trailing_punct(c: char) -> bool {
    ||| c == '.'
    ||| c == ','
    ||| c == ';'
    ||| c == ':'
    ||| c == '!'
    ||| c == '?'
}

/// The decimal digits.
pub open spec fn digit(c: char) -> bool {
    '0' <= c <= '9'
}

/// Whether `s` holds digits only.
pub open spec fn all_digits(s: Seq<char>) -> bool {
    forall|k: int| 0 <= k < s.len() ==> digit(#[trigger] s[k])
}

/// Whether `s` holds no terminator.
pub open spec fn no_terminator(s: Seq<char>) -> bool {
    forall|k: int| 0 <= k < s.len() ==> !terminator(#[trigger] s[k])
}

/// The number that a sequence of decimal digits stands for.
pub open spec fn decimal_value(s: Seq<char>) -> nat
    decreases s.len(),
{
    if s.len() == 0 {
        0
    } else {
        (decimal_value(s.drop_last()) * 10 + (s.last() as u32 - '0' as u32)) as nat
    }
}

/// The line that the text after a `:` names: `N` or `N-M`, two sequences of digits of
/// which the first fits a `u32`.
pub open spec fn line_hint(suffix: Seq<char>) -> Option<u32> {
    let dash = first_position(suffix, '-');
    let (first, rest) = (suffix.take(dash), suffix.skip(dash));
    if first.len() > 0 && all_digits(first) && (rest.len() == 0 || (rest.len() > 1 && all_digits(
        rest.skip(1),
    ))) && decimal_value(first) <= u32::MAX {
        Some(decimal_value(first) as u32)
    } else {
        None
    }
}

/// A token split into its path and its line hint.
pub open spec fn split_token(token: Seq<char>) -> (Seq<char>, Option<u32>) {
    match last_position(token, ':') {
        None => (token, None),
        Some(colon) => match line_hint(token.skip(colon + 1)) {
            None => (token, None),
            Some(n) => (token.take(colon), Some(n)),
        },
    }
}

/// The first position from `i` on that holds a terminator, or the end of the text.
pub open spec fn token_end(s: Seq<char>, i: int) -> int
    decreases s.len() - i,
{
    if i >= s.len() || terminator(s[i]) {
        i
    } else {
        token_end(s, i + 1)
    }
}

/// The end of `s[lo..hi]` without its trailing punctuation.
pub open spec fn stripped_end(s: Seq<char>, lo: int, hi: int) -> int
    decreases hi - lo,
{
    if lo < hi && trailing_punct(s[hi - 1]) {
        stripped_end(s, lo, hi - 1)
    } else {
        hi
    }
}

/// The character before position `i`, if there is one.
pub open spec fn char_before(s: Seq<char>, i: int) -> Option<char> {
    if i == 0 {
        None
    } else {
        Some(s[i - 1])
    }
}

/// Whether position `i` holds an `@` at which a reference may start.
pub open spec fn opens_token(s: Seq<char>, i: int) -> bool {
    0 <= i < s.len() && s[i] == '@' && boundary(char_before(s, i))
}

/// The end of the reference that starts with the `@` at `i`.
pub open spec fn ref_end(s: Seq<char>, i: int) -> int {
    stripped_end(s, i + 1, token_end(s, i + 1))
}

/// The reference that starts with the `@` at `i`, unless its path is empty.
pub open spec fn ref_from(s: Seq<char>, i: int) -> Option<PathRefView> {
    let (path, line) = split_token(s.subrange(i + 1, ref_end(s, i)));
    if path.len() == 0 {
        None
    } else {
        Some(
            PathRefView {
                start: byte_offset(s, i),
                end: byte_offset(s, ref_end(s, i)),
                path,
                line,
            },
        )
    }
}

/// The references in `s` from position `i` on. A token is read to its end before
/// the next `@` is looked for, so `@a@b` is one token.
pub open spec fn refs_from(s: Seq<char>, i: int) -> Seq<PathRefView>
    decreases s.len() - i,
    via refs_from_decreases
{
    if i < 0 || i >= s.len() {
        Seq::empty()
    } else if opens_token(s, i) {
        match ref_from(s, i) {
            Some(r) => seq![r] + refs_from(s, token_end(s, i + 1)),
            None => refs_from(s, token_end(s, i + 1)),
        }
    } else {
        refs_from(s, i + 1)
    }
}

#[via_fn]
proof fn refs_from_decreases(s: Seq<char>, i: int) {
    if 0 <= i < s.len() {
        lemma_token_end(s, i + 1);
    }
}

/// The references in a text, in order.
pub open spec fn refs_in(s: Seq<char>) -> Seq<PathRefView> {
    refs_from(s, 0)
}

/// Whether the span of `r` holds the offset, its end included.
pub open spec fn spans(r: PathRefView, offset: int) -> bool {
    r.start <= offset <= r.end
}

/// The first of `refs` whose span holds the offset.
pub open spec fn first_spanning(refs: Seq<PathRefView>, offset: int) -> Option<PathRefView>
    decreases refs.len(),
{
    if refs.len() == 0 {
        None
    } else if spans(refs[0], offset) {
        Some(refs[0])
    } else {
        first_spanning(refs.drop_first(), offset)
    }
}

/// The token that is being typed when the cursor stands before the `n`-th
/// character: it starts with the last `@` before the cursor, if that one can start
/// a reference and no terminator lies between the two.
pub open spec fn query_before(s: Seq<char>, n: int) -> Option<QueryView> {
    match last_position(s.take(n), '@') {
        None => None,
        Some(at) => {
            let typed = s.subrange(at + 1, n);
            if boundary(char_before(s, at)) && no_terminator(typed) {
                Some(QueryView { at: byte_offset(s, at), text: typed })
            } else {
                None
            }
        },
    }
}

/// A token ends at the end of the text or at a terminator, and holds none.
pub proof fn lemma_token_end(s: Seq<char>, i: int)
    requires
        i <= s.len(),
    ensures
        i <= token_end(s, i) <= s.len(),
        token_end(s, i) < s.len() ==> terminator(s[token_end(s, i)]),
        forall|k: int| i <= k < token_end(s, i) ==> !terminator(#[trigger] s[k]),
    decreases s.len() - i,
{
    if i < s.len() && !terminator(s[i]) {
        lemma_token_end(s, i + 1);
    }
}

/// What is stripped off the end is punctuation, and all of it.
pub proof fn lemma_stripped_end(s: Seq<char>, lo: int, hi: int)
    requires
        lo <= hi,
    ensures
        lo <= stripped_end(s, lo, hi) <= hi,
        lo < stripped_end(s, lo, hi) ==> !trailing_punct(s[stripped_end(s, lo, hi) - 1]),
        forall|k: int| stripped_end(s, lo, hi) <= k < hi ==> trailing_punct(#[trigger] s[k]),
    decreases hi - lo,
{
    if lo < hi && trailing_punct(s[hi - 1]) {
        lemma_stripped_end(s, lo, hi - 1);
    }
}

/// Longer digit sequences stand for larger numbers.
proof fn lemma_decimal_mono(s: Seq<char>, i: int)
    requires
        0 <= i <= s.len(),
        all_digits(s),
    ensures
        decimal_value(s.take(i)) <= decimal_value(s),
    decreases s.len() - i,
{
    if i == s.len() {
        assert(s.take(i) =~= s);
    } else {
        lemma_decimal_mono(s, i + 1);
        assert(s.take(i + 1).drop_last() =~= s.take(i));
        assert(digit(s[i]));
    }
}

/// Characters that end a path token.
pub fn is_terminator(c: char) -> (b: bool)
    ensures
        b == terminator(c),
{
    is_white_space(c) || matches!(
        c,
        '(' | ')' | '[' | ']' | '{' | '}' | '<' | '>' | '"' | '\'' | '`' | ',' | '|'
    )
}

/// Whether a `@` preceded by `prev` starts a reference (vs. e.g. an email).
pub fn is_boundary(prev: Option<char>) -> (b: bool)
    ensures
        b == boundary(prev),
{
    match prev {
        None => true,
        Some(c) => is_white_space(c) || matches!(
            c,
            '(' | ')' | '[' | ']' | '{' | '}' | '<' | '>' | '"' | '\'' | '`' | ',' | '|' | '*' | '_'
        ),
    }
}

/// Punctuation that commonly follows a path in prose and is not part of it.
pub fn is_trailing_punct(c: char) -> (b: bool)
    ensures
        b == trailing_punct(c),
{
    matches!(c, '.' | ',' | ';' | ':' | '!' | '?')
}

/// The number in decimal digits, if it fits.
fn parse_u32(digits: &[char]) -> (r: Option<u32>)
    requires
        all_digits(digits@),
    ensures
        r == (if decimal_value(digits@) <= u32::MAX {
            Some(decimal_value(digits@) as u32)
        } else {
            None
        }),
{
    let mut n: u32 = 0;
    let mut i: usize = 0;
    while i < digits.len()
        invariant
            0 <= i <= digits@.len(),
            all_digits(digits@),
            n == decimal_value(digits@.take(i as int)),
        decreases digits.len() - i,
    {
        assert(digit(digits@[i as int]));
        let d: u32 = digits[i] as u32 - '0' as u32;
        proof {
            assert(digits@.take(i + 1).drop_last() =~= digits@.take(i as int));
            assert(decimal_value(digits@.take(i + 1)) == n * 10 + d);
            lemma_decimal_mono(digits@, i + 1);
        }
        if n > (u32::MAX - d) / 10 {
            return None;
        }
        n = n * 10 + d;
        i = i + 1;
    }
    assert(digits@.take(i as int) =~= digits@);
    Some(n)
}

/// The end of the digits in `s` from `from` on.
fn digits_end(s: &[char], from: usize) -> (end: usize)
    requires
        from <= s@.len(),
    ensures
        from <= end <= s@.len(),
        forall|k: int| from <= k < end ==> digit(#[trigger] s@[k]),
        end < s@.len() ==> !digit(s@[end as int]),
{
    let mut i: usize = from;
    while i < s.len() && s[i] >= '0' && s[i] <= '9'
        invariant
            from <= i <= s@.len(),
            forall|k: int| from <= k < i ==> digit(#[trigger] s@[k]),
        decreases s.len() - i,
    {
        i = i + 1;
    }
    i
}

/// The line hint in the text after a `:`.
fn parse_line_hint(suffix: &[char]) -> (r: Option<u32>)
    ensures
        r == line_hint(suffix@),
{
    let ghost s = suffix@;
    let ghost dash = first_position(s, '-');
    let ghost tail = s.skip(dash).skip(1);
    let end = digits_end(suffix, 0);
    proof {
        lemma_first_position(s, '-');
        if dash < end {
            assert(digit(s[dash]));
        }
    }
    if end < suffix.len() {
        if suffix[end] != '-' {
            proof {
                assert(end < dash ==> !digit(s.take(dash)[end as int]));
                if dash == end {
                    assert(s[dash] == '-');
                }
            }
            return None;
        }
        assert(dash == end);
        let last = digits_end(suffix, end + 1);
        if last < suffix.len() {
            assert(tail[last - dash - 1] == s[last as int]);
            return None;
        }
        if end + 1 == suffix.len() {
            return None;
        }
        assert forall|k: int| 0 <= k < tail.len() implies digit(#[trigger] tail[k]) by {
            assert(tail[k] == s[dash + 1 + k]);
        }
    }
    assert(dash == end);
    let first = vstd::slice::slice_subrange(suffix, 0, end);
    proof {
        assert(first@ =~= s.take(dash));
        assert forall|k: int| 0 <= k < first@.len() implies digit(#[trigger] first@[k]) by {
            assert(first@[k] == s[k]);
        }
        assert(all_digits(first@));
    }
    if end == 0 {
        None
    } else {
        parse_u32(first)
    }
}

/// Split an optional `:N` / `:N-M` suffix off a path.
pub fn split_line_suffix(token: &str) -> (r: (&str, Option<u32>))
    ensures
        (r.0@, r.1) == split_token(token@),
{
    let chars = chars_of(token);
    let mut i: usize = chars.len();
    while i > 0
        invariant
            0 <= i <= chars@.len(),
            chars@ == token@,
            forall|k: int| i <= k < token@.len() ==> #[trigger] token@[k] != ':',
        decreases i,
    {
        i = i - 1;
        if chars[i] == ':' {
            proof {
                lemma_last_position_unique(token@, ':', i as int);
            }
            let suffix = vstd::slice::slice_subrange(chars.as_slice(), i + 1, chars.len());
            assert(suffix@ =~= token@.skip(i + 1));
            return match parse_line_hint(suffix) {
                Some(n) => {
                    let path = token.substring_char(0, i);
                    assert(path@ =~= token@.take(i as int));
                    (path, Some(n))
                },
                None => (token, None),
            };
        }
    }
    proof {
        lemma_last_position(token@, ':');
    }
    (token, None)
}

/// What the references say, one by one.
pub open spec fn views(refs: Seq<PathRef>) -> Seq<PathRefView> {
    refs.map_values(|r: PathRef| r@)
}

/// Reads the token after the `@` at `i`, whose byte offset is `at`. Returns the
/// position and the byte offset of the token's end, and the reference, if its path
/// is not empty.
fn read_token(text: &str, chars: &[char], i: usize, at: usize) -> (r: (
    usize,
    usize,
    Option<PathRef>,
))
    requires
        chars@ == text@,
        opens_token(text@, i as int),
        at == byte_offset(text@, i as int),
    ensures
        r.0 == token_end(text@, i + 1),
        r.1 == byte_offset(text@, r.0 as int),
        match r.2 {
            Some(found) => ref_from(text@, i as int) == Some(found@),
            None => ref_from(text@, i as int) is None,
        },
{
    let ghost s = text@;
    let total = text.as_bytes().len();
    proof {
        lemma_byte_offset_ends(s);
        lemma_byte_offset_step(s, i as int);
        lemma_utf8_width('@');
        lemma_byte_offset_mono(s, i + 1, s.len() as int);
        lemma_token_end(s, i + 1);
    }
    assert(i < chars.len());
    // Scan forward to the raw end of the token.
    let mut end: usize = i + 1;
    let mut end_at: usize = at + 1;
    while end < chars.len() && !is_terminator(chars[end])
        invariant
            chars@ == s,
            total == byte_offset(s, s.len() as int),
            i + 1 <= end <= s.len(),
            end_at == byte_offset(s, end as int),
            token_end(s, end as int) == token_end(s, i + 1),
        decreases chars.len() - end,
    {
        proof {
            lemma_byte_offset_step(s, end as int);
            lemma_byte_offset_mono(s, end + 1, s.len() as int);
        }
        end_at = end_at + char_utf8_width(chars[end]);
        end = end + 1;
    }
    // Strip trailing prose punctuation.
    let mut stop: usize = end;
    while stop > i + 1 && is_trailing_punct(chars[stop - 1])
        invariant
            chars@ == s,
            i + 1 <= stop <= end <= s.len(),
            stripped_end(s, i + 1, stop as int) == stripped_end(s, i + 1, end as int),
        decreases stop,
    {
        stop = stop - 1;
    }
    let raw = text_of(chars, i + 1, stop);
    let (path, line) = split_line_suffix(raw.as_str());
    if path.is_empty() {
        return (end, end_at, None);
    }
    let raw_len = raw.as_str().as_bytes().len();
    proof {
        lemma_byte_offset_split(s, i + 1, stop as int);
        lemma_byte_offset_mono(s, stop as int, s.len() as int);
    }
    let found = PathRef { start: at, end: at + 1 + raw_len, path: path.to_owned(), line };
    assert(ref_from(s, i as int) == Some(found@));
    (end, end_at, Some(found))
}

/// Find all `@path` references in `text`.
pub fn find_refs(text: &str) -> (refs: Vec<PathRef>)
    ensures
        views(refs@) == refs_in(text@),
{
    let chars = chars_of(text);
    let ghost s = text@;
    let total = text.as_bytes().len();
    let mut out: Vec<PathRef> = Vec::new();
    let mut i: usize = 0;
    let mut at: usize = 0;
    proof {
        lemma_byte_offset_ends(s);
        assert(views(out@) + refs_from(s, 0) =~= refs_from(s, 0));
    }
    while i < chars.len()
        invariant
            chars@ == s,
            s == text@,
            total == byte_offset(s, s.len() as int),
            0 <= i <= s.len(),
            at == byte_offset(s, i as int),
            views(out@) + refs_from(s, i as int) == refs_in(s),
        decreases chars.len() - i,
    {
        let prev = if i == 0 {
            None
        } else {
            Some(chars[i - 1])
        };
        if chars[i] == '@' && is_boundary(prev) {
            proof {
                lemma_token_end(s, i + 1);
            }
            let ghost before = out@;
            let (end, end_at, found) = read_token(text, chars.as_slice(), i, at);
            if let Some(r) = found {
                out.push(r);
                proof {
                    assert(views(out@) =~= views(before).push(r@));
                    assert(views(out@) + refs_from(s, end as int) =~= views(before) + (seq![r@]
                        + refs_from(s, end as int)));
                }
            }
            // Skip past the token so `@a@b` does not double-match.
            i = end;
            at = end_at;
        } else {
            proof {
                lemma_byte_offset_step(s, i as int);
                lemma_byte_offset_mono(s, i + 1, s.len() as int);
            }
            at = at + char_utf8_width(chars[i]);
            i = i + 1;
        }
    }
    assert(views(out@) + refs_from(s, i as int) =~= views(out@));
    out
}

/// The reference whose span contains `offset`, if any.
pub fn ref_at(text: &str, offset: usize) -> (r: Option<PathRef>)
    ensures
        match r {
            Some(found) => first_spanning(refs_in(text@), offset as int) == Some(found@),
            None => first_spanning(refs_in(text@), offset as int) is None,
        },
{
    let mut refs = find_refs(text);
    let ghost all = views(refs@);
    let mut i: usize = 0;
    assert(all.skip(0) =~= all);
    while i < refs.len()
        invariant
            0 <= i <= refs@.len(),
            all == views(refs@),
            all == refs_in(text@),
            first_spanning(all.skip(i as int), offset as int) == first_spanning(
                all,
                offset as int,
            ),
        decreases refs.len() - i,
    {
        assert(all.skip(i as int).drop_first() =~= all.skip(i + 1));
        assert(all.skip(i as int)[0] == refs@[i as int]@);
        if refs[i].start <= offset && offset <= refs[i].end {
            return Some(refs.remove(i));
        }
        i = i + 1;
    }
    None
}

/// The `@` token being typed immediately before `cursor`, if the cursor is
/// inside one (no terminator between the `@` and the cursor).
pub fn query_at(text: &str, cursor: usize) -> (q: Option<Query>)
    requires
        is_char_boundary(text.spec_bytes(), cursor as int),
    ensures
        match q {
            Some(found) => query_before(text@, char_index(text@, cursor as int)) == Some(found@),
            None => query_before(text@, char_index(text@, cursor as int)) is None,
        },
{
    let ghost s = text@;
    let ghost n = char_index(s, cursor as int);
    proof {
        lemma_boundary_is_offset(s, cursor as int);
        lemma_byte_offset_ends(s);
        lemma_offset_is_boundary(s, 0);
    }
    let before = slice_text(text, 0, cursor);
    proof {
        assert(before@ =~= s.take(n));
        lemma_last_position(s.take(n), '@');
    }
    let chars = chars_of(before);
    let mut i: usize = chars.len();
    let mut at: usize = cursor;
    while i > 0
        invariant
            chars@ == s.take(n),
            0 <= n <= s.len(),
            s == text@,
            n == char_index(s, cursor as int),
            0 <= i <= n,
            at == byte_offset(s, i as int),
            forall|k: int| i <= k < n ==> #[trigger] s[k] != '@',
            forall|k: int| i <= k < n ==> !terminator(#[trigger] s[k]),
        decreases i,
    {
        i = i - 1;
        proof {
            lemma_byte_offset_step(s, i as int);
            lemma_byte_offset_mono(s, 0, i as int);
        }
        let c = chars[i];
        assert(c == s.take(n)[i as int]);
        at = at - char_utf8_width(c);
        if c == '@' {
            proof {
                assert forall|k: int| i < k < s.take(n).len() implies #[trigger] s.take(n)[k]
                    != '@' by {
                    assert(s.take(n)[k] == s[k]);
                }
                lemma_last_position_unique(s.take(n), '@', i as int);
            }
            let prev = if i == 0 {
                None
            } else {
                Some(chars[i - 1])
            };
            if !is_boundary(prev) {
                return None;
            }
            let typed = text_of(chars.as_slice(), i + 1, chars.len());
            assert(typed@ =~= s.subrange(i + 1, n));
            return Some(Query { at, text: typed });
        }
        if is_terminator(c) {
            proof {
                lemma_last_position(s.take(n), '@');
                if let Some(found) = last_position(s.take(n), '@') {
                    assert(s.take(n)[found] == s[found]);
                    assert(found < i);
                    assert(s.subrange(found + 1, n)[i - found - 1] == c);
                }
            }
            return None;
        }
    }
    proof {
        if let Some(found) = last_position(s.take(n), '@') {
            assert(s.take(n)[found] == s[found]);
        }
    }
    None
}

/// The references of a text from position `i` on lie behind that position, in
/// order, and with at least one character between two of them.
pub proof fn lemma_refs_from_ordered(s: Seq<char>, i: int)
    requires
        0 <= i <= s.len(),
    ensures
        forall|k: int|
            0 <= k < refs_from(s, i).len() ==> byte_offset(s, i) <= (#[trigger] refs_from(
                s,
                i,
            )[k]).start < refs_from(s, i)[k].end <= byte_offset(s, s.len() as int),
        forall|j: int, k: int|
            0 <= j < k < refs_from(s, i).len() ==> (#[trigger] refs_from(s, i)[j]).end
                < (#[trigger] refs_from(s, i)[k]).start,
    decreases s.len() - i,
{
    if i < s.len() {
        if opens_token(s, i) {
            let e = token_end(s, i + 1);
            let stop = ref_end(s, i);
            lemma_token_end(s, i + 1);
            lemma_stripped_end(s, i + 1, e);
            lemma_refs_from_ordered(s, e);
            lemma_byte_offset_mono(s, i, i + 1);
            lemma_byte_offset_mono(s, i + 1, stop);
            lemma_byte_offset_mono(s, stop, e);
            lemma_byte_offset_mono(s, e, s.len() as int);
            if e < s.len() {
                // The terminator at `e` is no `@`, so nothing starts there.
                assert(refs_from(s, e) == refs_from(s, e + 1));
                lemma_refs_from_ordered(s, e + 1);
                lemma_byte_offset_mono(s, e, e + 1);
            }
            if let Some(r) = ref_from(s, i) {
                let all = refs_from(s, i);
                let rest = refs_from(s, e);
                assert(all == seq![r] + rest);
                assert forall|j: int, k: int| 0 <= j < k < all.len() implies (#[trigger] all[j]).end
                    < (#[trigger] all[k]).start by {
                    assert(all[k] == rest[k - 1]);
                    if j > 0 {
                        assert(all[j] == rest[j - 1]);
                    }
                }
                assert forall|k: int| 0 <= k < all.len() implies byte_offset(s, i) <= (
                #[trigger] all[k]).start < all[k].end <= byte_offset(s, s.len() as int) by {
                    if k > 0 {
                        assert(all[k] == rest[k - 1]);
                    }
                }
            }
        } else {
            lemma_refs_from_ordered(s, i + 1);
            lemma_byte_offset_mono(s, i, i + 1);
        }
    }
}

/// References come in the order of the text, none is empty, and no two of them
/// overlap or touch.
pub proof fn law_refs_ordered_and_apart(s: Seq<char>, j: int, k: int)
    requires
        0 <= j < k < refs_in(s).len(),
    ensures
        0 <= refs_in(s)[j].start < refs_in(s)[j].end < refs_in(s)[k].start < refs_in(s)[k].end
            <= encode_utf8(s).len(),
{
    lemma_refs_from_ordered(s, 0);
    lemma_byte_offset_ends(s);
}

/// Each reference starts at the `@` of some token.
pub proof fn lemma_refs_from_origin(s: Seq<char>, i: int, k: int) -> (at: int)
    requires
        0 <= i <= s.len(),
        0 <= k < refs_from(s, i).len(),
    ensures
        i <= at < s.len(),
        opens_token(s, at),
        ref_from(s, at) == Some(refs_from(s, i)[k]),
    decreases s.len() - i,
{
    if opens_token(s, i) {
        let e = token_end(s, i + 1);
        lemma_token_end(s, i + 1);
        match ref_from(s, i) {
            Some(r) => {
                if k == 0 {
                    i
                } else {
                    lemma_refs_from_origin(s, e, k - 1)
                }
            },
            None => lemma_refs_from_origin(s, e, k),
        }
    } else {
        lemma_refs_from_origin(s, i + 1, k)
    }
}

/// The path of a token is the token, or what stands before its `:LINE` suffix.
pub proof fn lemma_split_token(token: Seq<char>)
    ensures
        split_token(token).1 is None ==> split_token(token).0 == token,
        split_token(token).1 is Some ==> {
            let path = split_token(token).0;
            &&& path.len() < token.len()
            &&& token == path + seq![':'] + token.skip(path.len() as int + 1)
            &&& split_token(token).1 == line_hint(token.skip(path.len() as int + 1))
        },
{
    lemma_last_position(token, ':');
    if let Some(colon) = last_position(token, ':') {
        assert(token =~= token.take(colon) + seq![':'] + token.skip(colon + 1));
    }
}

/// A reference is an `@` at the start of the text or after a boundary character,
/// followed by a token without terminators and without trailing punctuation; the
/// token is the path, or the path, a `:` and a line hint.
pub proof fn law_ref_shape(s: Seq<char>, k: int)
    requires
        0 <= k < refs_in(s).len(),
    ensures
        exists|i: int, j: int|
            {
                let r = refs_in(s)[k];
                let token = s.subrange(i + 1, j);
                &&& #[trigger] opens_token(s, i)
                &&& i + 1 < j <= s.len()
                &&& r.start == byte_offset(s, i)
                &&& r.end == #[trigger] byte_offset(s, j)
                &&& no_terminator(token)
                &&& !trailing_punct(token.last())
                &&& r.path.len() > 0
                &&& match r.line {
                    None => token == r.path,
                    Some(n) => token == r.path + seq![':'] + token.skip(r.path.len() as int + 1)
                        && line_hint(token.skip(r.path.len() as int + 1)) == Some(n),
                }
            },
{
    let i = lemma_refs_from_origin(s, 0, k);
    let j = ref_end(s, i);
    lemma_token_end(s, i + 1);
    lemma_stripped_end(s, i + 1, token_end(s, i + 1));
    let token = s.subrange(i + 1, j);
    lemma_split_token(token);
    assert(opens_token(s, i));
    assert(refs_in(s)[k].end == byte_offset(s, j));
}

/// An `@` after any other character than a boundary character, as in
/// `user@example.com`, starts no reference.
pub proof fn law_no_ref_inside_word(s: Seq<char>, i: int, k: int)
    requires
        0 < i < s.len(),
        !boundary(Some(s[i - 1])),
        0 <= k < refs_in(s).len(),
    ensures
        refs_in(s)[k].start != byte_offset(s, i),
{
    let at = lemma_refs_from_origin(s, 0, k);
    if refs_in(s)[k].start == byte_offset(s, i) {
        crate::chars::lemma_byte_offset_injective(s, at, i);
    }
}

/// A token that no earlier token reaches is read.
proof fn lemma_refs_from_complete(s: Seq<char>, from: int, i: int)
    requires
        0 <= from <= i,
        opens_token(s, i),
        ref_from(s, i) is Some,
        forall|j: int|
            from <= j < i && #[trigger] opens_token(s, j) ==> token_end(s, j + 1) <= i,
    ensures
        refs_from(s, from).contains(ref_from(s, i)->0),
    decreases s.len() - from,
{
    let r = ref_from(s, i)->0;
    if from == i {
        assert(refs_from(s, from)[0] == r);
    } else if opens_token(s, from) {
        let e = token_end(s, from + 1);
        lemma_token_end(s, from + 1);
        lemma_refs_from_complete(s, e, i);
        if ref_from(s, from) is Some {
            let k = choose|k: int| 0 <= k < refs_from(s, e).len() && refs_from(s, e)[k] == r;
            assert(refs_from(s, from)[k + 1] == r);
        }
    } else {
        lemma_refs_from_complete(s, from + 1, i);
    }
}

/// Every `@` at a boundary with a path after it is found, unless it lies inside
/// the token of an earlier one.
pub proof fn law_every_ref_found(s: Seq<char>, i: int)
    requires
        opens_token(s, i),
        ref_from(s, i) is Some,
        forall|j: int| 0 <= j < i && #[trigger] opens_token(s, j) ==> token_end(s, j + 1) <= i,
    ensures
        refs_in(s).contains(ref_from(s, i)->0),
{
    lemma_refs_from_complete(s, 0, i);
}

/// `first_spanning` is the first one that spans the offset.
proof fn lemma_first_spanning(refs: Seq<PathRefView>, offset: int, k: int)
    requires
        0 <= k < refs.len(),
        spans(refs[k], offset),
        forall|j: int| 0 <= j < k ==> !spans(#[trigger] refs[j], offset),
    ensures
        first_spanning(refs, offset) == Some(refs[k]),
    decreases refs.len(),
{
    if k > 0 {
        assert(!spans(refs[0], offset));
        let rest = refs.drop_first();
        assert forall|j: int| 0 <= j < k - 1 implies !spans(#[trigger] rest[j], offset) by {
            assert(rest[j] == refs[j + 1]);
        }
        lemma_first_spanning(rest, offset, k - 1);
    }
}

/// From the `@` up to and including the position right after a reference, that
/// reference is the one at the offset.
pub proof fn law_ref_at_finds_span(s: Seq<char>, k: int, offset: int)
    requires
        0 <= k < refs_in(s).len(),
        spans(refs_in(s)[k], offset),
    ensures
        first_spanning(refs_in(s), offset) == Some(refs_in(s)[k]),
{
    lemma_refs_from_ordered(s, 0);
    lemma_first_spanning(refs_in(s), offset, k);
}

/// What `ref_at` finds is one of the references and spans the offset.
pub proof fn law_ref_at_sound(s: Seq<char>, offset: int)
    ensures
        match first_spanning(refs_in(s), offset) {
            Some(r) => refs_in(s).contains(r) && spans(r, offset),
            None => forall|k: int|
                0 <= k < refs_in(s).len() ==> !spans(#[trigger] refs_in(s)[k], offset),
        },
{
    if exists|k: int| 0 <= k < refs_in(s).len() && spans(#[trigger] refs_in(s)[k], offset) {
        let k = choose|k: int|
            0 <= k < refs_in(s).len() && spans(#[trigger] refs_in(s)[k], offset);
        law_ref_at_finds_span(s, k, offset);
    } else {
        lemma_first_spanning_none(refs_in(s), offset);
    }
}

proof fn lemma_first_spanning_none(refs: Seq<PathRefView>, offset: int)
    requires
        forall|k: int| 0 <= k < refs.len() ==> !spans(#[trigger] refs[k], offset),
    ensures
        first_spanning(refs, offset) is None,
    decreases refs.len(),
{
    if refs.len() > 0 {
        let rest = refs.drop_first();
        assert forall|k: int| 0 <= k < rest.len() implies !spans(#[trigger] rest[k], offset) by {
            assert(rest[k] == refs[k + 1]);
        }
        lemma_first_spanning_none(rest, offset);
    }
}

/// While a token is typed, its start stays, and what is typed is appended to the
/// query, as long as it holds no terminator and no `@`.
pub proof fn law_query_follows_typing(s: Seq<char>, n: int, m: int)
    requires
        0 <= n <= m <= s.len(),
        query_before(s, n) is Some,
        forall|k: int| n <= k < m ==> !terminator(#[trigger] s[k]) && s[k] != '@',
    ensures
        query_before(s, m) == Some(
            QueryView {
                at: query_before(s, n)->0.at,
                text: query_before(s, n)->0.text + s.subrange(n, m),
            },
        ),
{
    lemma_last_position(s.take(n), '@');
    let at = last_position(s.take(n), '@')->0;
    assert(s.take(m)[at] == s.take(n)[at]);
    assert forall|k: int| at < k < s.take(m).len() implies #[trigger] s.take(m)[k] != '@' by {
        if k < n {
            assert(s.take(n)[k] == s[k]);
        }
        assert(s.take(m)[k] == s[k]);
    }
    lemma_last_position_unique(s.take(m), '@', at);
    let typed = s.subrange(at + 1, m);
    assert(typed =~= s.subrange(at + 1, n) + s.subrange(n, m));
    assert forall|k: int| 0 <= k < typed.len() implies !terminator(#[trigger] typed[k]) by {
        if at + 1 + k < n {
            assert(s.subrange(at + 1, n)[k] == typed[k]);
        } else {
            assert(typed[k] == s[at + 1 + k]);
        }
    }
}

} // verus!
