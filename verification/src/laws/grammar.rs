//! References and queries: which parts of a text they are.

use crate::chars::white_space;
use crate::refs::{
    all_digits, boundary, decimal_value, digit, first_spanning, law_every_ref_found,
    law_ref_at_finds_span, law_ref_at_sound, lemma_refs_from_origin, lemma_split_token,
    lemma_stripped_end, lemma_token_end, line_hint, no_terminator, opens_token, query_before,
    ref_end, refs_in, split_token, stripped_end, terminator, token_end, trailing_punct, views,
    PathRef, PathRefView, Query, QueryView,
};
use crate::seqs::{
    first_position, last_position, lemma_first_position, lemma_last_position,
    lemma_last_position_unique,
};
use vstd::prelude::*;
use vstd::utf8::*;

verus! {

/// Whether a character is one of those that Unicode calls white space: the line feed
/// and its kin, the space, and the wider and narrower spaces.
pub open spec fn is_blank(c: char) -> bool {
    let u = c as int;
    9 <= u <= 13 || u == 32 || u == 133 || u == 160 || u == 5760 || 8192 <= u <= 8202 || u == 8232
        || u == 8233 || u == 8239 || u == 8287 || u == 12288
}

/// White space is what Unicode says; a line feed and a tab are among it.
pub proof fn law_white_space(c: char)
    ensures
        white_space(c) <==> is_blank(c),
        c == ' ' || c == '\n' || c == '\r' || c == '\t' ==> white_space(c),
        'a' <= c <= 'z' || 'A' <= c <= 'Z' || '0' <= c <= '9' || c == '@' || c == '/' || c == '.'
            ==> !white_space(c),
{
}

/// A path ends at white space, a bracket, a quote, a comma or a bar, and at nothing
/// else.
pub proof fn law_what_ends_a_path(c: char)
    ensures
        terminator(c) <==> is_blank(c) || c == '(' || c == ')' || c == '[' || c == ']' || c == '{'
            || c == '}' || c == '<' || c == '>' || c == '"' || c == '\'' || c == '`' || c == ','
            || c == '|',
        !terminator('@') && !terminator(':') && !terminator('/') && !terminator('.'),
{
}

/// An `@` starts a reference at the start of the text, and behind whatever ends a path,
/// a `*` or a `_`; and behind nothing else.
pub proof fn law_where_a_reference_starts(c: char)
    ensures
        boundary(None),
        is_blank(c) ==> boundary(Some(c)),
        boundary(Some(c)) <==> terminator(c) || c == '*' || c == '_',
{
}

/// The punctuation that is dropped at the end of a token.
pub proof fn law_what_is_dropped_at_the_end(c: char)
    ensures
        trailing_punct(c) <==> c == '.' || c == ',' || c == ';' || c == ':' || c == '!' || c == '?',
{
}

/// The ten digits, each ten times worth what stands behind it.
pub proof fn law_digits(s: Seq<char>, c: char)
    ensures
        digit(c) <==> 48 <= c as int <= 57,
        all_digits(s.push(c)) <==> all_digits(s) && digit(c),
        all_digits(Seq::<char>::empty()),
        decimal_value(Seq::<char>::empty()) == 0,
        digit(c) ==> decimal_value(s.push(c)) == 10 * decimal_value(s) + (c as int - 48),
{
    let t = s.push(c);
    assert(t.drop_last() =~= s);
    assert(t[s.len() as int] == c);
    if all_digits(t) {
        assert forall|k: int| 0 <= k < s.len() implies digit(#[trigger] s[k]) by {
            assert(t[k] == s[k]);
        }
    }
}

/// What is read of a token with a `:N` or `:N-M` at its end: the path is what stands
/// before the colon, and the line is `N`.
pub proof fn law_line_suffix_is_read(path: Seq<char>, first: Seq<char>, rest: Seq<char>)
    requires
        first.len() > 0,
        all_digits(first),
        decimal_value(first) <= u32::MAX,
        rest.len() == 0 || (rest.len() > 1 && rest[0] == '-' && all_digits(rest.skip(1))),
    ensures
        split_token(path + seq![':'] + first + rest) == (
            path,
            Some(decimal_value(first) as u32),
        ),
{
    let suffix = first + rest;
    let token = path + seq![':'] + first + rest;
    let colon = path.len() as int;
    assert(token[colon] == ':');
    assert forall|k: int| colon < k < token.len() implies #[trigger] token[k] != ':' by {
        let j = k - colon - 1;
        if j < first.len() {
            assert(token[k] == first[j]);
            assert(digit(first[j]));
        } else if j == first.len() {
            assert(token[k] == rest[0]);
        } else {
            assert(token[k] == rest.skip(1)[j - first.len() - 1]);
            assert(digit(rest.skip(1)[j - first.len() - 1]));
        }
    }
    lemma_last_position_unique(token, ':', colon);
    assert(token.take(colon) =~= path);
    assert(token.skip(colon + 1) =~= suffix);
    lemma_first_position(suffix, '-');
    let dash = first_position(suffix, '-');
    assert(dash == first.len()) by {
        if dash < first.len() {
            assert(suffix[dash] == first[dash]);
            assert(digit(first[dash]));
        }
        if rest.len() > 0 {
            assert(suffix[first.len() as int] == '-');
        }
    }
    assert(suffix.take(dash) =~= first);
    assert(suffix.skip(dash) =~= rest);
}

/// A token without such a suffix is all path: a line is read only where the token is a
/// path, a colon, digits for that line, and nothing or a dash and more digits.
pub proof fn law_other_tokens_are_paths(token: Seq<char>)
    ensures
        split_token(token).1 is None ==> split_token(token).0 == token,
        split_token(token).1 is Some ==> exists|first: Seq<char>, rest: Seq<char>|
            {
                &&& #[trigger] (first + rest) == token.skip(split_token(token).0.len() as int + 1)
                &&& split_token(token).0.len() < token.len()
                &&& split_token(token).0 == token.take(split_token(token).0.len() as int)
                &&& token[split_token(token).0.len() as int] == ':'
                &&& first.len() > 0
                &&& all_digits(first)
                &&& decimal_value(first) == split_token(token).1->0
                &&& rest.len() == 0 || (rest.len() > 1 && rest[0] == '-' && all_digits(rest.skip(1)))
            },
{
    lemma_last_position(token, ':');
    if let Some(colon) = last_position(token, ':') {
        let suffix = token.skip(colon + 1);
        lemma_first_position(suffix, '-');
        let dash = first_position(suffix, '-');
        let (first, rest) = (suffix.take(dash), suffix.skip(dash));
        if line_hint(suffix) is Some {
            let path = split_token(token).0;
            assert(path == token.take(colon));
            assert(path.len() == colon);
            assert(first + rest =~= suffix);
            if rest.len() > 0 {
                assert(rest[0] == suffix[dash]);
            }
            assert(decimal_value(first) == split_token(token).1->0);
        }
    }
}

/// Whether an `@` that starts a reference stands at `p`, and the token behind it reaches
/// `i` or beyond.
pub open spec fn inside_token(s: Seq<char>, p: int, i: int) -> bool {
    &&& 0 <= p < i
    &&& s[p] == '@'
    &&& p == 0 || boundary(Some(s[p - 1]))
    &&& forall|k: int| p < k < i ==> !terminator(#[trigger] s[k])
}

/// Every token is found: an `@` at the start of the text or behind a boundary character,
/// not inside an earlier token, and what follows it up to the next terminator or the end
/// of the text, without trailing punctuation, is a reference if it names a path.
pub proof fn law_every_token_is_found(s: Seq<char>, i: int, j: int, e: int)
    requires
        0 <= i < j <= e <= s.len(),
        s[i] == '@',
        i == 0 || boundary(Some(s[i - 1])),
        forall|p: int| !#[trigger] inside_token(s, p, i),
        forall|k: int| i < k < e ==> !terminator(#[trigger] s[k]),
        e == s.len() || terminator(s[e]),
        forall|k: int| j <= k < e ==> trailing_punct(#[trigger] s[k]),
        j == i + 1 || !trailing_punct(s[j - 1]),
        split_token(s.subrange(i + 1, j)).0.len() > 0,
    ensures
        refs_in(s).contains(
            PathRefView {
                start: encode_utf8(s.take(i)).len() as int,
                end: encode_utf8(s.take(j)).len() as int,
                path: split_token(s.subrange(i + 1, j)).0,
                line: split_token(s.subrange(i + 1, j)).1,
            },
        ),
{
    lemma_token_end(s, i + 1);
    let end = token_end(s, i + 1);
    assert(end == e) by {
        if end < e {
            assert(!terminator(s[end]));
        }
        if e < end {
            assert(!terminator(s[e]));
        }
    }
    lemma_stripped_end(s, i + 1, e);
    let stop = stripped_end(s, i + 1, e);
    assert(stop == j) by {
        if stop < j {
            assert(trailing_punct(s[j - 1]));
        }
        if j < stop {
            assert(trailing_punct(s[stop - 1]));
        }
    }
    assert forall|p: int| 0 <= p < i && #[trigger] opens_token(s, p) implies token_end(s, p + 1)
        <= i by {
        lemma_token_end(s, p + 1);
        if token_end(s, p + 1) > i {
            assert(inside_token(s, p, i)) by {
                assert(forall|k: int| p < k < i ==> !terminator(#[trigger] s[k]));
            }
        }
    }
    law_every_ref_found(s, i);
}

/// Every reference is a token: it starts with an `@` at the start of the text or behind
/// a boundary character, holds no terminator, ends before one, before trailing punctuation
/// or with the text, but not with such punctuation, and names a path.
pub proof fn law_every_reference_is_a_token(s: Seq<char>, k: int)
    requires
        0 <= k < refs_in(s).len(),
    ensures
        exists|i: int, j: int|
            {
                let r = refs_in(s)[k];
                let token = #[trigger] s.subrange(i + 1, j);
                &&& 0 <= i && i + 1 < j <= s.len()
                &&& s[i] == '@'
                &&& i == 0 || boundary(Some(s[i - 1]))
                &&& forall|m: int| 0 <= m < token.len() ==> !terminator(#[trigger] token[m])
                &&& !trailing_punct(token.last())
                &&& j == s.len() || terminator(s[j]) || trailing_punct(s[j])
                &&& (r.path, r.line) == split_token(token)
                &&& r.path.len() > 0
                &&& r.start == encode_utf8(s.take(i)).len()
                &&& r.end == encode_utf8(s.take(j)).len()
            },
{
    let i = lemma_refs_from_origin(s, 0, k);
    let j = ref_end(s, i);
    lemma_token_end(s, i + 1);
    lemma_stripped_end(s, i + 1, token_end(s, i + 1));
    let token = s.subrange(i + 1, j);
    assert(token.len() > 0) by {
        lemma_split_token(token);
    }
    assert forall|m: int| 0 <= m < token.len() implies !terminator(#[trigger] token[m]) by {
        assert(token[m] == s[i + 1 + m]);
    }
    assert(token.last() == s[j - 1]);
}

/// The reference at an offset is the one whose span, from the `@` to right behind its last
/// character, holds the offset; there is none if no span does.
pub proof fn law_reference_at_an_offset(s: Seq<char>, offset: int)
    ensures
        match first_spanning(refs_in(s), offset) {
            Some(r) => refs_in(s).contains(r) && r.start <= offset && offset <= r.end,
            None => forall|k: int|
                0 <= k < refs_in(s).len() ==> offset < (#[trigger] refs_in(s)[k]).start
                    || refs_in(s)[k].end < offset,
        },
        forall|k: int|
            0 <= k < refs_in(s).len() && (#[trigger] refs_in(s)[k]).start <= offset
                <= refs_in(s)[k].end ==> first_spanning(refs_in(s), offset) == Some(refs_in(s)[k]),
{
    law_ref_at_sound(s, offset);
    assert forall|k: int|
        0 <= k < refs_in(s).len() && (#[trigger] refs_in(s)[k]).start <= offset
            <= refs_in(s)[k].end implies first_spanning(refs_in(s), offset) == Some(
        refs_in(s)[k],
    ) by {
        law_ref_at_finds_span(s, k, offset);
    }
}

/// There is a query at the cursor wherever an `@` at the start of the text or behind a
/// boundary character, such as any white space, is followed up to the cursor by neither
/// a terminator nor another `@`; the query is what stands between the two.
pub proof fn law_every_typed_token_is_a_query(s: Seq<char>, at: int, n: int)
    requires
        0 <= at < n <= s.len(),
        s[at] == '@',
        at == 0 || is_blank(s[at - 1]) || boundary(Some(s[at - 1])),
        forall|k: int| at < k < n ==> !terminator(#[trigger] s[k]) && s[k] != '@',
    ensures
        query_before(s, n) == Some(
            QueryView { at: encode_utf8(s.take(at)).len() as int, text: s.subrange(at + 1, n) },
        ),
{
    if at > 0 {
        law_where_a_reference_starts(s[at - 1]);
    }
    let head = s.take(n);
    assert(head[at] == '@');
    assert forall|k: int| at < k < head.len() implies #[trigger] head[k] != '@' by {
        assert(head[k] == s[k]);
    }
    lemma_last_position_unique(head, '@', at);
    let typed = s.subrange(at + 1, n);
    assert forall|k: int| 0 <= k < typed.len() implies !terminator(#[trigger] typed[k]) by {
        assert(typed[k] == s[at + 1 + k]);
    }
}

/// There is no other query: one at the cursor starts with the last `@` before it, at the
/// start of the text or behind a boundary character, and holds no terminator.
pub proof fn law_every_query_is_being_typed(s: Seq<char>, n: int)
    requires
        0 <= n <= s.len(),
        query_before(s, n) is Some,
    ensures
        exists|at: int|
            {
                let q = query_before(s, n)->0;
                &&& 0 <= at < n
                &&& s[at] == '@'
                &&& at == 0 || boundary(Some(s[at - 1]))
                &&& q.at == encode_utf8(s.take(at)).len()
                &&& q.text == #[trigger] s.subrange(at + 1, n)
                &&& forall|k: int| at < k < n ==> !terminator(#[trigger] s[k]) && s[k] != '@'
            },
{
    let head = s.take(n);
    lemma_last_position(head, '@');
    let at = last_position(head, '@')->0;
    let typed = s.subrange(at + 1, n);
    assert(head[at] == s[at]);
    assert forall|k: int| at < k < n implies !terminator(#[trigger] s[k]) && s[k] != '@' by {
        assert(head[k] == s[k]);
        assert(no_terminator(typed));
        assert(typed[k - at - 1] == s[k]);
    }
}

/// A reference that a function returns says what its fields say, and so does a query.
pub proof fn law_what_references_say(r: PathRef, q: Query, refs: Seq<PathRef>, k: int)
    ensures
        r@.start == r.start,
        r@.end == r.end,
        r@.path == r.path@,
        r@.line == r.line,
        q@.at == q.at,
        q@.text == q.text@,
        views(refs).len() == refs.len(),
        0 <= k < refs.len() ==> views(refs)[k] == refs[k]@,
{
}

} // verus!
