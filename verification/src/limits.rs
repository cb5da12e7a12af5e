//! Which paths can be scored for a query.
//!
//! The matcher panics on some inputs: where a sum overflows, and where two of its
//! parts disagree on a letter. Such inputs are recognized here, so that all others can
//! be handed to it.

use crate::chars::chars_of;
use vstd::prelude::*;
use vstd::string::*;
use vstd::utf8::*;

verus! {

/// The most characters of a word that can match without an overflow: the score of a
/// word is a `u16` sum of at most 34 for the first character and 25 for each other one.
pub const MAX_MATCHED: usize = 2621;

/// The longest query: the scores of its words, of at most 34 for each character, are
/// summed as `u32`.
pub const MAX_QUERY: usize = 126322567;

/// Number of characters that a character of a query can stand for: a backslash may be
/// kept and repeated.
pub open spec fn needle_width(c: char) -> nat {
    if c == '\\' {
        2
    } else {
        1
    }
}

/// Number of characters that a query can stand for.
pub open spec fn needle_len(query: Seq<char>) -> nat
    decreases query.len(),
{
    if query.len() == 0 {
        0
    } else {
        needle_len(query.drop_last()) + needle_width(query.last())
    }
}

/// Whether the character at `i` separates words: a space without a backslash before it.
pub open spec fn separates(query: Seq<char>, i: int) -> bool {
    query[i] == ' ' && (i == 0 || query[i - 1] != '\\')
}

/// Number of characters that the last word of a query can stand for.
pub open spec fn last_word(query: Seq<char>) -> nat
    decreases query.len(),
{
    if query.len() == 0 || separates(query, query.len() - 1) {
        0
    } else {
        last_word(query.drop_last()) + needle_width(query.last())
    }
}

/// Number of characters that the longest word of a query can stand for.
pub open spec fn longest_word(query: Seq<char>) -> nat
    decreases query.len(),
{
    if query.len() == 0 {
        0
    } else {
        let before = longest_word(query.drop_last());
        if last_word(query) > before {
            last_word(query)
        } else {
            before
        }
    }
}

/// Whether a character is ASCII.
pub open spec fn ascii(c: char) -> bool {
    (c as u32) < 0x80
}

/// An ASCII capital as a small letter; other characters as they are.
pub open spec fn ascii_lower(c: char) -> char {
    if 'A' <= c <= 'Z' {
        (c as u32 + 32) as char
    } else {
        c
    }
}

/// Whether a character of a path can match one of the query. An ASCII character only
/// matches itself, in capitals or not.
pub open spec fn may_match(query: Seq<char>, h: char) -> bool {
    !ascii(h) || exists|i: int|
        0 <= i < query.len() && ascii_lower(#[trigger] query[i]) == ascii_lower(h)
}

/// Number of characters of a path that can match one of the query.
pub open spec fn matchable(query: Seq<char>, rel: Seq<char>) -> nat
    decreases rel.len(),
{
    if rel.len() == 0 {
        0
    } else {
        matchable(query, rel.drop_last()) + if may_match(query, rel.last()) {
            1nat
        } else {
            0nat
        }
    }
}

/// Whether no sum overflows. For the score of a word, the word must be short enough, or
/// the path must have few enough characters that can match. The path has less than 2^32
/// characters, and the size of the matrix that is considered fits.
pub open spec fn fits(query: Seq<char>, rel: Seq<char>) -> bool {
    let size = encode_utf8(rel).len();
    &&& needle_len(query) <= MAX_QUERY
    &&& longest_word(query) <= MAX_MATCHED || matchable(query, rel) <= MAX_MATCHED
    &&& size <= u32::MAX
    &&& size * longest_word(query) <= usize::MAX || size * size <= usize::MAX
}

/// The letters that matching may replace by a plain Latin letter, and others between
/// them. A word with such a letter is matched without replacing any.
pub open spec fn accented(c: char) -> bool {
    ||| '\u{c0}' <= c <= '\u{2ae}'
    ||| '\u{363}' <= c <= '\u{36f}'
    ||| '\u{1d00}' <= c <= '\u{1ef1}'
    ||| '\u{2071}' <= c <= '\u{2184}'
}

/// Capitals, in some blocks, that case folding changes. A word with a letter that case
/// folding changes is matched with its case.
pub open spec fn capital(c: char) -> bool {
    ||| 'A' <= c <= 'Z'
    ||| '\u{c0}' <= c <= '\u{d6}'
    ||| '\u{d8}' <= c <= '\u{de}'
    ||| '\u{391}' <= c <= '\u{3a1}'
    ||| '\u{3a3}' <= c <= '\u{3ab}'
    ||| '\u{400}' <= c <= '\u{42f}'
}

/// What case folding makes of the lowercase letters that it changes, such as the long s
/// and the final sigma; other characters as they are.
pub open spec fn folded(c: char) -> char {
    if c == '\u{b5}' {
        '\u{3bc}'
    } else if c == '\u{17f}' {
        's'
    } else if c == '\u{345}' || c == '\u{1fbe}' {
        '\u{3b9}'
    } else if c == '\u{3c2}' {
        '\u{3c3}'
    } else if c == '\u{3d0}' {
        '\u{3b2}'
    } else if c == '\u{3d1}' {
        '\u{3b8}'
    } else if c == '\u{3d5}' {
        '\u{3c6}'
    } else if c == '\u{3d6}' {
        '\u{3c0}'
    } else if c == '\u{3f0}' {
        '\u{3ba}'
    } else if c == '\u{3f1}' {
        '\u{3c1}'
    } else if c == '\u{3f5}' {
        '\u{3b5}'
    } else if '\u{13f8}' <= c <= '\u{13fd}' {
        (c as u32 - 8) as char
    } else if c == '\u{1c80}' {
        '\u{432}'
    } else if c == '\u{1c81}' {
        '\u{434}'
    } else if c == '\u{1c82}' {
        '\u{43e}'
    } else if c == '\u{1c83}' {
        '\u{441}'
    } else if c == '\u{1c84}' || c == '\u{1c85}' {
        '\u{442}'
    } else if c == '\u{1c86}' {
        '\u{44a}'
    } else if c == '\u{1c87}' {
        '\u{463}'
    } else if c == '\u{1c88}' {
        '\u{a64b}'
    } else if c == '\u{1e9b}' {
        '\u{1e61}'
    } else if '\u{ab70}' <= c <= '\u{abbf}' {
        (c as u32 - 0x97d0) as char
    } else {
        c
    }
}

/// Capitals as small letters, for the letters that [`folded`] gives; other characters
/// as they are.
pub open spec fn lowered(c: char) -> char {
    if c == 'S' {
        's'
    } else if c == '\u{39c}' || c == '\u{399}' || c == '\u{3a3}' || c == '\u{392}' || c == '\u{398}'
        || c == '\u{3a6}' || c == '\u{3a0}' || c == '\u{39a}' || c == '\u{3a1}' || c == '\u{395}'
        || c == '\u{412}' || c == '\u{414}' || c == '\u{41e}' || c == '\u{421}' || c == '\u{422}'
        || c == '\u{42a}' {
        (c as u32 + 32) as char
    } else if c == '\u{3f4}' {
        '\u{3b8}'
    } else if c == '\u{462}' || c == '\u{a64a}' || c == '\u{1e60}' {
        (c as u32 + 1) as char
    } else {
        c
    }
}

/// Whether a letter at `i` surely counts: it starts the text or follows a character
/// below U+0600, none of which is merged with a letter behind it.
pub open spec fn counts(s: Seq<char>, i: int) -> bool {
    i == 0 || s[i - 1] < '\u{600}'
}

/// Whether `a..b` is a word of a query.
pub open spec fn is_word(query: Seq<char>, a: int, b: int) -> bool {
    &&& 0 <= a < b <= query.len()
    &&& a == 0 || separates(query, a - 1)
    &&& b == query.len() || separates(query, b)
    &&& forall|i: int| a <= i < b ==> !#[trigger] separates(query, i)
}

/// Whether a text has an accented letter in `a..b`.
pub open spec fn has_accented(s: Seq<char>, a: int, b: int) -> bool {
    exists|i: int| a <= i < b && accented(#[trigger] s[i])
}

/// Whether a text has a capital in `a..b` that surely counts.
pub open spec fn has_capital(s: Seq<char>, a: int, b: int) -> bool {
    exists|i: int| a <= i < b && capital(#[trigger] s[i]) && counts(s, i)
}

/// Whether `a..b` may be a word that is matched letter by letter, whatever its case, but
/// with its accents: it has an accented letter, no capital, and no `$` at its end, which
/// would tie it to the end of the path.
pub open spec fn keeps_accents(query: Seq<char>, a: int, b: int) -> bool {
    &&& is_word(query, a, b)
    &&& b - a >= 2
    &&& has_accented(query, a, b)
    &&& !has_capital(query, a, b)
    &&& query[b - 1] == '$' ==> query[b - 2] == '\\'
}

/// Whether the parts of the matcher may disagree on where a word that starts with `f`
/// starts in a path. One part takes a lowercase letter that folds to `f` for it, and the
/// other does not. It matters if no `f` comes before that letter and one comes behind
/// it; and the word has an accented letter, so the path must go on with one.
pub open spec fn disagree_on(rel: Seq<char>, f: char) -> bool {
    exists|j: int, k: int, m: int|
        0 <= j < k <= m < rel.len() && #[trigger] folds_to(rel, f, j) && #[trigger] has_letter(
            rel,
            f,
            k,
        ) && !ascii(#[trigger] rel[m])
}

/// Whether the letter at `j` is one that folds to `f`, and no `f` surely counts before it.
pub open spec fn folds_to(rel: Seq<char>, f: char, j: int) -> bool {
    &&& rel[j] != f
    &&& folded(rel[j]) == f
    &&& forall|p: int| 0 <= p < j ==> !(#[trigger] has_letter(rel, f, p) && counts(rel, p))
}

/// Whether the letter at `k` is `f`, in capitals or not.
pub open spec fn has_letter(rel: Seq<char>, f: char, k: int) -> bool {
    lowered(rel[k]) == f
}

/// Whether the parts of the matcher may disagree on a word of the query.
pub open spec fn parts_disagree(query: Seq<char>, rel: Seq<char>) -> bool {
    exists|a: int, b: int| #[trigger] keeps_accents(query, a, b) && disagree_on(rel, query[a])
}

/// Whether a path can be scored for a query: no sum overflows, and the parts of the
/// matcher agree.
pub open spec fn scorable(query: Seq<char>, rel: Seq<char>) -> bool {
    fits(query, rel) && !parts_disagree(query, rel)
}

/// Decides [`accented`].
fn is_accented(c: char) -> (b: bool)
    ensures
        b == accented(c),
{
    ('\u{c0}' <= c && c <= '\u{2ae}') || ('\u{363}' <= c && c <= '\u{36f}') || ('\u{1d00}' <= c && c
        <= '\u{1ef1}') || ('\u{2071}' <= c && c <= '\u{2184}')
}

/// Decides [`capital`].
fn is_capital(c: char) -> (b: bool)
    ensures
        b == capital(c),
{
    ('A' <= c && c <= 'Z') || ('\u{c0}' <= c && c <= '\u{d6}') || ('\u{d8}' <= c && c <= '\u{de}') || (
    '\u{391}' <= c && c <= '\u{3a1}') || ('\u{3a3}' <= c && c <= '\u{3ab}') || ('\u{400}' <= c && c
        <= '\u{42f}')
}

/// Whether a character is ASCII.
fn is_ascii(c: char) -> (b: bool)
    ensures
        b == ascii(c),
{
    (c as u32) < 0x80
}

/// Whether two characters are the same, ASCII letters in capitals or not.
fn same_ascii(a: char, b: char) -> (r: bool)
    ensures
        r == (ascii_lower(a) == ascii_lower(b)),
{
    let x: u32 = if 'A' <= a && a <= 'Z' {
        a as u32 + 32
    } else {
        a as u32
    };
    let y: u32 = if 'A' <= b && b <= 'Z' {
        b as u32 + 32
    } else {
        b as u32
    };
    assert(ascii_lower(a) as u32 == x);
    assert(ascii_lower(b) as u32 == y);
    x == y
}

/// Whether the letter `c` folds to `f`, but is not `f`.
fn is_folded_to(c: char, f: char) -> (b: bool)
    ensures
        b == (c != f && folded(c) == f),
{
    let u: u32 = c as u32;
    let v: u32 = if '\u{13f8}' <= c && c <= '\u{13fd}' {
        u - 8
    } else if '\u{ab70}' <= c && c <= '\u{abbf}' {
        u - 0x97d0
    } else {
        match c {
            '\u{b5}' => 0x3bc,
            '\u{17f}' => 0x73,
            '\u{345}' | '\u{1fbe}' => 0x3b9,
            '\u{3c2}' => 0x3c3,
            '\u{3d0}' => 0x3b2,
            '\u{3d1}' => 0x3b8,
            '\u{3d5}' => 0x3c6,
            '\u{3d6}' => 0x3c0,
            '\u{3f0}' => 0x3ba,
            '\u{3f1}' => 0x3c1,
            '\u{3f5}' => 0x3b5,
            '\u{1c80}' => 0x432,
            '\u{1c81}' => 0x434,
            '\u{1c82}' => 0x43e,
            '\u{1c83}' => 0x441,
            '\u{1c84}' | '\u{1c85}' => 0x442,
            '\u{1c86}' => 0x44a,
            '\u{1c87}' => 0x463,
            '\u{1c88}' => 0xa64b,
            '\u{1e9b}' => 0x1e61,
            _ => u,
        }
    };
    assert(folded(c) as u32 == v);
    c != f && v == f as u32
}

/// Whether the letter `c` is `f`, in capitals or not.
fn is_letter(c: char, f: char) -> (b: bool)
    ensures
        b == (lowered(c) == f),
{
    let u: u32 = c as u32;
    let v: u32 = match c {
        'S' => 0x73,
        '\u{39c}' | '\u{399}' | '\u{3a3}' | '\u{392}' | '\u{398}' | '\u{3a6}' | '\u{3a0}' | '\u{39a}' | '\u{3a1}'
        | '\u{395}' | '\u{412}' | '\u{414}' | '\u{41e}' | '\u{421}' | '\u{422}' | '\u{42a}' => u + 32,
        '\u{3f4}' => 0x3b8,
        '\u{462}' | '\u{a64a}' | '\u{1e60}' => u + 1,
        _ => u,
    };
    assert(lowered(c) as u32 == v);
    v == f as u32
}

/// Decides [`disagree_on`].
fn disagrees_on(chars: &Vec<char>, f: char) -> (b: bool)
    ensures
        b == disagree_on(chars@, f),
{
    let ghost rel = chars@;
    let ghost mut j: int = 0;
    let ghost mut k: int = 0;
    // 0 before the first letter that folds to `f`, 1 behind it, 2 behind the next `f`.
    let mut stage: u8 = 0;
    let mut i: usize = 0;
    while i < chars.len()
        invariant
            chars@ == rel,
            0 <= i <= rel.len(),
            stage <= 2,
            stage == 0 ==> forall|p: int| 0 <= p < i ==> !#[trigger] folds_to(rel, f, p),
            stage == 0 ==> forall|p: int|
                0 <= p < i ==> !(#[trigger] has_letter(rel, f, p) && counts(rel, p)),
            stage >= 1 ==> 0 <= j < i && folds_to(rel, f, j) && forall|p: int|
                0 <= p < j ==> !#[trigger] folds_to(rel, f, p),
            stage == 1 ==> forall|p: int| j < p < i ==> !#[trigger] has_letter(rel, f, p),
            stage == 2 ==> j < k < i && has_letter(rel, f, k) && (forall|p: int|
                j < p < k ==> !#[trigger] has_letter(rel, f, p)) && (forall|p: int|
                k <= p < i ==> ascii(#[trigger] rel[p])),
        decreases chars.len() - i,
    {
        let c = chars[i];
        if stage == 0 {
            if is_folded_to(c, f) {
                assert(folds_to(rel, f, i as int));
                proof {
                    j = i as int;
                }
                stage = 1;
            } else if is_letter(c, f) && (i == 0 || chars[i - 1] < '\u{600}') {
                proof {
                    assert(has_letter(rel, f, i as int) && counts(rel, i as int));
                    assert forall|x: int, y: int, z: int|
                        0 <= x < y <= z < rel.len() && #[trigger] folds_to(rel, f, x)
                            && #[trigger] has_letter(rel, f, y) implies ascii(#[trigger] rel[z]) by {
                        assert(x > i || x == i || !folds_to(rel, f, x));
                    }
                }
                return false;
            }
        } else {
            if stage == 1 && is_letter(c, f) {
                proof {
                    k = i as int;
                }
                assert(has_letter(rel, f, i as int));
                stage = 2;
            }
            if stage == 2 && !is_ascii(c) {
                assert(folds_to(rel, f, j) && has_letter(rel, f, k) && !ascii(rel[i as int]));
                return true;
            }
        }
        i = i + 1;
    }
    proof {
        assert forall|x: int, y: int, z: int|
            0 <= x < y <= z < rel.len() && #[trigger] folds_to(rel, f, x) && #[trigger] has_letter(
                rel,
                f,
                y,
            ) implies ascii(#[trigger] rel[z]) by {
            assert(stage >= 1);
            assert(x >= j);
            assert(stage == 2);
            assert(y >= k);
        }
    }
    false
}

/// Decides [`keeps_accents`] for a word.
fn is_accent_word(chars: &Vec<char>, a: usize, b: usize) -> (r: bool)
    requires
        is_word(chars@, a as int, b as int),
    ensures
        r == keeps_accents(chars@, a as int, b as int),
{
    let ghost s = chars@;
    if b - a < 2 || (chars[b - 1] == '$' && chars[b - 2] != '\\') {
        return false;
    }
    let mut accents = false;
    let mut i: usize = a;
    while i < b
        invariant
            chars@ == s,
            0 <= a <= i <= b <= s.len(),
            accents == has_accented(s, a as int, i as int),
            !has_capital(s, a as int, i as int),
        decreases b - i,
    {
        if is_accented(chars[i]) {
            assert(accented(s[i as int]));
            accents = true;
        }
        if is_capital(chars[i]) && (i == 0 || chars[i - 1] < '\u{600}') {
            assert(capital(s[i as int]) && counts(s, i as int));
            return false;
        }
        i = i + 1;
    }
    accents
}

/// What [`scorable`] asks of a query. Its view is the query.
pub struct QueryShape {
    chars: Vec<char>,
    needle: u128,
    word: u128,
    /// The first letters of the words that keep their accents.
    letters: Vec<char>,
}

impl View for QueryShape {
    type V = Seq<char>;

    closed spec fn view(&self) -> Seq<char> {
        self.chars@
    }
}

/// Whether `letters` has the first letters of the words before `n` that keep their
/// accents, and no others.
spec fn has_letters(letters: Seq<char>, query: Seq<char>, n: int) -> bool {
    &&& forall|i: int|
        0 <= i < letters.len() ==> starts_accent_word(query, #[trigger] letters[i])
    &&& forall|a: int, b: int|
        a < n && #[trigger] keeps_accents(query, a, b) ==> letters.contains(query[a])
}

/// Whether `c` starts a word that keeps its accents.
spec fn starts_accent_word(query: Seq<char>, c: char) -> bool {
    exists|a: int, b: int| #[trigger] keeps_accents(query, a, b) && query[a] == c
}

impl QueryShape {
    #[verifier::type_invariant]
    spec fn well_formed(self) -> bool {
        &&& self.needle == needle_len(self.chars@)
        &&& self.word == longest_word(self.chars@)
        &&& self.word <= self.needle
        &&& has_letters(self.letters@, self.chars@, self.chars@.len() as int)
    }

    pub fn new(query: &str) -> (shape: QueryShape)
        ensures
            shape@ == query@,
    {
        let chars = chars_of(query);
        let (needle, word) = lengths(&chars);
        let letters = accent_letters(&chars);
        QueryShape { chars, needle, word, letters }
    }

    /// Whether a path can be scored for the query.
    pub fn can_score(&self, rel: &str) -> (b: bool)
        ensures
            b == scorable(self@, rel@),
    {
        proof {
            use_type_invariant(self);
        }
        if !self.has_room(rel) {
            return false;
        }
        if self.letters.len() == 0 {
            assert(!parts_disagree(self@, rel@)) by {
                assert forall|a: int, b: int|
                    #[trigger] keeps_accents(self@, a, b) implies !disagree_on(rel@, self@[a]) by {
                    assert(self.letters@.contains(self@[a]));
                }
            }
            return true;
        }
        let chars = chars_of(rel);
        let mut i: usize = 0;
        while i < self.letters.len()
            invariant
                chars@ == rel@,
                0 <= i <= self.letters@.len(),
                has_letters(self.letters@, self@, self@.len() as int),
                forall|k: int| 0 <= k < i ==> !disagree_on(rel@, #[trigger] self.letters@[k]),
            decreases self.letters.len() - i,
        {
            if disagrees_on(&chars, self.letters[i]) {
                proof {
                    let c = self.letters@[i as int];
                    assert(starts_accent_word(self@, c));
                    let (a, b) = choose|a: int, b: int|
                        #[trigger] keeps_accents(self@, a, b) && self@[a] == c;
                    assert(parts_disagree(self@, rel@));
                }
                return false;
            }
            i = i + 1;
        }
        assert(!parts_disagree(self@, rel@)) by {
            assert forall|a: int, b: int| #[trigger] keeps_accents(self@, a, b) implies !disagree_on(
                rel@,
                self@[a],
            ) by {
                let c = self@[a];
                assert(self.letters@.contains(c));
                let k = choose|k: int| 0 <= k < self.letters@.len() && self.letters@[k] == c;
                assert(!disagree_on(rel@, self.letters@[k]));
            }
        }
        true
    }

    /// Whether no sum overflows.
    fn has_room(&self, rel: &str) -> (b: bool)
        ensures
            b == fits(self@, rel@),
    {
        proof {
            use_type_invariant(self);
        }
        let size = rel.as_bytes().len();
        if self.needle > MAX_QUERY as u128 || size > u32::MAX as usize {
            return false;
        }
        let (s, w): (u64, u64) = (size as u64, self.word as u64);
        assert(s * w <= 0xffff_ffff * 0x7fff_ffff) by (nonlinear_arith)
            requires
                s <= 0xffff_ffff,
                w <= 0x7fff_ffff,
        ;
        assert(s * s <= 0xffff_ffff * 0xffff_ffff) by (nonlinear_arith)
            requires
                s <= 0xffff_ffff,
        ;
        if s * w > usize::MAX as u64 && s * s > usize::MAX as u64 {
            return false;
        }
        self.word <= MAX_MATCHED as u128 || count_matchable(&self.chars, rel) <= MAX_MATCHED
    }
}

/// The lengths of a query and of its longest word, as a matcher may see them.
fn lengths(chars: &Vec<char>) -> (r: (u128, u128))
    ensures
        r.0 == needle_len(chars@),
        r.1 == longest_word(chars@),
        r.1 <= r.0,
{
    let ghost s = chars@;
    let mut needle: u128 = 0;
    let mut last: u128 = 0;
    let mut word: u128 = 0;
    let mut i: usize = 0;
    assert(s.take(0) =~= Seq::<char>::empty());
    while i < chars.len()
        invariant
            chars@ == s,
            0 <= i <= s.len(),
            needle == needle_len(s.take(i as int)),
            last == last_word(s.take(i as int)),
            word == longest_word(s.take(i as int)),
            last <= needle <= 2 * i,
            word <= needle,
        decreases chars.len() - i,
    {
        let c = chars[i];
        proof {
            assert(s.take(i + 1).drop_last() =~= s.take(i as int));
            assert(s.take(i + 1).last() == c);
            assert(i > 0 ==> s.take(i + 1)[i - 1] == s[i - 1]);
        }
        let width: u128 = if c == '\\' {
            2
        } else {
            1
        };
        needle = needle + width;
        if c == ' ' && (i == 0 || chars[i - 1] != '\\') {
            last = 0;
        } else {
            last = last + width;
        }
        if last > word {
            word = last;
        }
        i = i + 1;
    }
    assert(s.take(i as int) =~= s);
    (needle, word)
}

/// The first letters of the words that keep their accents.
fn accent_letters(chars: &Vec<char>) -> (letters: Vec<char>)
    ensures
        has_letters(letters@, chars@, chars@.len() as int),
{
    let ghost s = chars@;
    let mut letters: Vec<char> = Vec::new();
    let mut start: usize = 0;
    let mut i: usize = 0;
    while i < chars.len()
        invariant
            chars@ == s,
            0 <= start <= i <= s.len(),
            start == 0 || separates(s, start - 1),
            forall|k: int| start <= k < i ==> !#[trigger] separates(s, k),
            has_letters(letters@, s, start as int),
        decreases chars.len() - i,
    {
        if chars[i] == ' ' && (i == 0 || chars[i - 1] != '\\') {
            assert(separates(s, i as int));
            add_letter(&mut letters, chars, start, i);
            start = i + 1;
        }
        i = i + 1;
    }
    add_letter(&mut letters, chars, start, i);
    letters
}

/// Adds the first letter of the word `start..end`, if that one keeps its accents.
fn add_letter(letters: &mut Vec<char>, chars: &Vec<char>, start: usize, end: usize)
    requires
        0 <= start <= end <= chars@.len(),
        start == 0 || separates(chars@, start - 1),
        end == chars@.len() || separates(chars@, end as int),
        forall|k: int| start <= k < end ==> !#[trigger] separates(chars@, k),
        has_letters(old(letters)@, chars@, start as int),
    ensures
        has_letters(final(letters)@, chars@, end + 1),
{
    let ghost s = chars@;
    let ghost before = letters@;
    let adds = start < end && is_accent_word(chars, start, end);
    if adds {
        letters.push(chars[start]);
    }
    proof {
        let after = letters@;
        assert forall|i: int| 0 <= i < after.len() implies starts_accent_word(
            s,
            #[trigger] after[i],
        ) by {
            if i < before.len() {
                assert(after[i] == before[i]);
            } else {
                assert(keeps_accents(s, start as int, end as int));
            }
        }
        assert forall|a: int, b: int|
            a < end + 1 && #[trigger] keeps_accents(s, a, b) implies after.contains(s[a]) by {
            if a < start {
                assert(before.contains(s[a]));
                let i = choose|i: int| 0 <= i < before.len() && before[i] == s[a];
                assert(after[i] == s[a]);
            } else if a > start {
                assert(separates(s, a - 1));
            } else {
                if b < end {
                    assert(separates(s, b));
                }
                if end < b {
                    assert(!separates(s, end as int));
                }
                assert(b == end);
                assert(after[after.len() - 1] == s[a]);
            }
        }
    }
}

/// Decides [`may_match`].
fn can_match(query: &Vec<char>, h: char) -> (b: bool)
    ensures
        b == may_match(query@, h),
{
    if !is_ascii(h) {
        return true;
    }
    let mut i: usize = 0;
    while i < query.len()
        invariant
            ascii(h),
            0 <= i <= query@.len(),
            forall|k: int|
                0 <= k < i ==> ascii_lower(#[trigger] query@[k]) != ascii_lower(h),
        decreases query.len() - i,
    {
        if same_ascii(query[i], h) {
            assert(ascii_lower(query@[i as int]) == ascii_lower(h));
            return true;
        }
        i = i + 1;
    }
    false
}

/// Number of characters of a path that can match one of the query.
fn count_matchable(query: &Vec<char>, rel: &str) -> (n: usize)
    ensures
        n == matchable(query@, rel@),
{
    let chars = chars_of(rel);
    let ghost s = rel@;
    let mut n: usize = 0;
    let mut i: usize = 0;
    assert(s.take(0) =~= Seq::<char>::empty());
    while i < chars.len()
        invariant
            chars@ == s,
            0 <= i <= s.len(),
            n <= i,
            n == matchable(query@, s.take(i as int)),
        decreases chars.len() - i,
    {
        assert(s.take(i + 1).drop_last() =~= s.take(i as int));
        assert(s.take(i + 1).last() == s[i as int]);
        if can_match(query, chars[i]) {
            n = n + 1;
        }
        i = i + 1;
    }
    assert(s.take(i as int) =~= s);
    n
}

/// Whether a path can be scored for a query.
pub fn can_score(query: &str, rel: &str) -> (b: bool)
    ensures
        b == scorable(query@, rel@),
{
    QueryShape::new(query).can_score(rel)
}

} // verus!
