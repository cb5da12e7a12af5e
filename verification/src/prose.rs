//! References in running text: what words, punctuation and a cursor do to them.

use crate::chars::{
    byte_offset, lemma_byte_offset_ends, lemma_byte_offset_mono, lemma_byte_offset_step,
    lemma_byte_offset_split, lemma_encode_concat, white_space,
};
use crate::refs::{
    boundary, char_before, lemma_refs_from_ordered, lemma_stripped_end, lemma_token_end,
    no_terminator, opens_token, query_before, ref_end, ref_from, refs_from, refs_in, split_token,
    stripped_end, terminator, token_end, trailing_punct, PathRefView, QueryView,
};
use crate::seqs::{last_position, lemma_last_position};
use vstd::prelude::*;
use vstd::utf8::*;

verus! {

/// The references, moved on by a number of bytes.
pub open spec fn shifted(refs: Seq<PathRefView>, by: int) -> Seq<PathRefView> {
    refs.map_values(
        |r: PathRefView|
            PathRefView { start: r.start + by, end: r.end + by, path: r.path, line: r.line },
    )
}

/// Whether all characters are trailing punctuation.
pub open spec fn all_punct(s: Seq<char>) -> bool {
    forall|k: int| 0 <= k < s.len() ==> trailing_punct(#[trigger] s[k])
}

/// A text without its trailing punctuation.
pub open spec fn stripped(s: Seq<char>) -> Seq<char> {
    s.take(stripped_end(s, 0, s.len() as int))
}

/// A token ends where it ends in a longer text that goes on with a terminator.
proof fn lemma_token_end_prefix(a: Seq<char>, rest: Seq<char>, i: int)
    requires
        0 <= i <= a.len(),
        rest.len() > 0,
        terminator(rest[0]),
    ensures
        token_end(a + rest, i) == token_end(a, i),
    decreases a.len() - i,
{
    if i < a.len() {
        assert((a + rest)[i] == a[i]);
        if !terminator(a[i]) {
            lemma_token_end_prefix(a, rest, i + 1);
        }
    } else {
        assert((a + rest)[i] == rest[0]);
    }
}

/// Trailing punctuation is the same in a longer text.
proof fn lemma_stripped_prefix(a: Seq<char>, rest: Seq<char>, lo: int, hi: int)
    requires
        0 <= lo <= hi <= a.len(),
    ensures
        stripped_end(a + rest, lo, hi) == stripped_end(a, lo, hi),
    decreases hi - lo,
{
    if lo < hi {
        assert((a + rest)[hi - 1] == a[hi - 1]);
        lemma_stripped_prefix(a, rest, lo, hi - 1);
    }
}

/// A reference whose token ends at the same place in a longer text is the same there.
proof fn lemma_ref_prefix(a: Seq<char>, rest: Seq<char>, i: int)
    requires
        0 <= i < a.len(),
        ref_end(a + rest, i) == ref_end(a, i),
    ensures
        opens_token(a + rest, i) == opens_token(a, i),
        ref_from(a + rest, i) == ref_from(a, i),
{
    let t = a + rest;
    let j = ref_end(a, i);
    lemma_token_end(a, i + 1);
    lemma_stripped_end(a, i + 1, token_end(a, i + 1));
    assert(t[i] == a[i]);
    assert(i > 0 ==> t[i - 1] == a[i - 1]);
    assert(t.subrange(i + 1, j) =~= a.subrange(i + 1, j));
    assert(t.take(i) =~= a.take(i));
    assert(t.take(j) =~= a.take(j));
}

/// The references of a text come first in a longer text that goes on with a terminator.
proof fn lemma_refs_prefix(a: Seq<char>, rest: Seq<char>, i: int)
    requires
        0 <= i <= a.len(),
        rest.len() > 0,
        terminator(rest[0]),
    ensures
        refs_from(a + rest, i) == refs_from(a, i) + refs_from(a + rest, a.len() as int),
    decreases a.len() - i,
{
    let t = a + rest;
    let tail = refs_from(t, a.len() as int);
    if i < a.len() {
        let e = token_end(a, i + 1);
        lemma_token_end(a, i + 1);
        lemma_token_end_prefix(a, rest, i + 1);
        lemma_stripped_prefix(a, rest, i + 1, e);
        lemma_ref_prefix(a, rest, i);
        if opens_token(a, i) {
            lemma_refs_prefix(a, rest, e);
            if let Some(r) = ref_from(a, i) {
                assert(seq![r] + (refs_from(a, e) + tail) =~= (seq![r] + refs_from(a, e)) + tail);
            }
        } else {
            lemma_refs_prefix(a, rest, i + 1);
        }
    } else {
        assert(refs_from(a, i) + tail =~= tail);
    }
}

/// A token ends where it ends without the text before it.
proof fn lemma_token_end_suffix(h: Seq<char>, b: Seq<char>, i: int)
    requires
        0 <= i <= b.len(),
    ensures
        token_end(h + b, h.len() + i) == h.len() + token_end(b, i),
    decreases b.len() - i,
{
    if i < b.len() {
        assert((h + b)[h.len() + i] == b[i]);
        if !terminator(b[i]) {
            lemma_token_end_suffix(h, b, i + 1);
        }
    }
}

/// Trailing punctuation is the same without the text before it.
proof fn lemma_stripped_suffix(h: Seq<char>, b: Seq<char>, lo: int, hi: int)
    requires
        0 <= lo <= hi <= b.len(),
    ensures
        stripped_end(h + b, h.len() + lo, h.len() + hi) == h.len() + stripped_end(b, lo, hi),
    decreases hi - lo,
{
    if lo < hi {
        assert((h + b)[h.len() + hi - 1] == b[hi - 1]);
        lemma_stripped_suffix(h, b, lo, hi - 1);
    }
}

/// The offset of a character behind another text.
proof fn lemma_offset_suffix(h: Seq<char>, b: Seq<char>, i: int)
    requires
        0 <= i <= b.len(),
    ensures
        byte_offset(h + b, h.len() + i) == encode_utf8(h).len() + byte_offset(b, i),
{
    assert((h + b).take(h.len() + i) =~= h + b.take(i));
    lemma_encode_concat(h, b.take(i));
}

/// The references of a text are the same behind a boundary character, only moved on.
proof fn lemma_refs_suffix(h: Seq<char>, b: Seq<char>, i: int)
    requires
        h.len() > 0,
        boundary(Some(h.last())),
        0 <= i <= b.len(),
    ensures
        refs_from(h + b, h.len() + i) == shifted(refs_from(b, i), encode_utf8(h).len() as int),
    decreases b.len() - i,
{
    let t = h + b;
    let at = h.len() + i;
    let by = encode_utf8(h).len() as int;
    if i < b.len() {
        let e = token_end(b, i + 1);
        let j = ref_end(b, i);
        lemma_token_end(b, i + 1);
        lemma_stripped_end(b, i + 1, e);
        lemma_token_end_suffix(h, b, i + 1);
        lemma_stripped_suffix(h, b, i + 1, e);
        lemma_offset_suffix(h, b, i);
        lemma_offset_suffix(h, b, j);
        assert(t[at] == b[i]);
        assert(i > 0 ==> t[at - 1] == b[i - 1]);
        assert(i == 0 ==> t[at - 1] == h.last());
        assert(opens_token(t, at) == opens_token(b, i));
        assert(t.subrange(at + 1, h.len() + j) =~= b.subrange(i + 1, j));
        if opens_token(b, i) {
            lemma_refs_suffix(h, b, e);
            if let Some(r) = ref_from(b, i) {
                assert(shifted(seq![r] + refs_from(b, e), by) =~= shifted(seq![r], by) + shifted(
                    refs_from(b, e),
                    by,
                ));
                assert(ref_from(t, at) == Some(shifted(seq![r], by)[0]));
                assert(shifted(seq![r], by) =~= seq![shifted(seq![r], by)[0]]);
            }
        } else {
            lemma_refs_suffix(h, b, i + 1);
        }
    } else {
        assert(refs_from(t, at) =~= shifted(refs_from(b, i), by));
    }
}

/// White space splits a text: its references are those of the part before and those of
/// the part behind, moved on.
pub proof fn law_white_space_splits(a: Seq<char>, w: char, b: Seq<char>)
    requires
        white_space(w),
    ensures
        refs_in(a + seq![w] + b) == refs_in(a) + shifted(
            refs_in(b),
            encode_utf8(a + seq![w]).len() as int,
        ),
{
    let h = a + seq![w];
    let t = h + b;
    assert(t =~= a + (seq![w] + b));
    lemma_refs_prefix(a, seq![w] + b, 0);
    assert(t[a.len() as int] == w);
    assert(refs_from(t, a.len() as int) == refs_from(t, h.len() as int));
    assert(h.last() == w);
    lemma_refs_suffix(h, b, 0);
}

/// A punctuation mark at the end changes none of the references from `i` on.
proof fn lemma_punct_at_end(s: Seq<char>, c: char, i: int)
    requires
        trailing_punct(c),
        0 <= i <= s.len(),
    ensures
        refs_from(s.push(c), i) == refs_from(s, i),
    decreases s.len() - i,
{
    let t = s.push(c);
    let n = s.len() as int;
    assert(t =~= s + seq![c]);
    assert(t[n] == c);
    assert(refs_from(t, n + 1) == Seq::<PathRefView>::empty());
    assert(refs_from(t, n) == Seq::<PathRefView>::empty());
    if i < n {
        let e = token_end(s, i + 1);
        lemma_token_end(s, i + 1);
        lemma_stripped_prefix(s, seq![c], i + 1, e);
        lemma_token_end_push(s, c, i + 1);
        lemma_ref_prefix(s, seq![c], i);
        if opens_token(s, i) {
            if e < n {
                lemma_punct_at_end(s, c, e);
            }
            assert(refs_from(s, n) == Seq::<PathRefView>::empty());
            assert(refs_from(t, token_end(t, i + 1)) == refs_from(s, e));
        } else {
            lemma_punct_at_end(s, c, i + 1);
            assert(refs_from(t, i) == refs_from(t, i + 1));
        }
    }
}

/// A token ends at the same place if a character is added at the end of the text, or
/// takes that character in.
proof fn lemma_token_end_push(s: Seq<char>, c: char, i: int)
    requires
        0 <= i <= s.len(),
    ensures
        token_end(s, i) < s.len() || terminator(c) ==> token_end(s.push(c), i) == token_end(s, i),
        token_end(s, i) == s.len() && !terminator(c) ==> token_end(s.push(c), i) == s.len() + 1,
    decreases s.len() - i,
{
    let t = s.push(c);
    if i < s.len() {
        assert(t[i] == s[i]);
        if !terminator(s[i]) {
            lemma_token_end_push(s, c, i + 1);
        }
    } else {
        assert(t[i] == c);
        assert(token_end(t, i + 1) == i + 1);
    }
}

/// Punctuation at the end of a text changes none of its references.
pub proof fn law_punctuation_at_the_end(s: Seq<char>, p: Seq<char>)
    requires
        all_punct(p),
    ensures
        refs_in(s + p) == refs_in(s),
    decreases p.len(),
{
    if p.len() == 0 {
        assert(s + p =~= s);
    } else {
        let init = p.drop_last();
        assert forall|k: int| 0 <= k < init.len() implies trailing_punct(#[trigger] init[k]) by {
            assert(init[k] == p[k]);
        }
        law_punctuation_at_the_end(s, init);
        assert(s + p =~= (s + init).push(p.last()));
        assert(trailing_punct(p[p.len() - 1]));
        lemma_punct_at_end(s + init, p.last(), 0);
    }
}

/// A token without terminators ends with the text.
proof fn lemma_open_token(s: Seq<char>, i: int)
    requires
        0 <= i <= s.len(),
        forall|k: int| i <= k < s.len() ==> !terminator(#[trigger] s[k]),
    ensures
        token_end(s, i) == s.len(),
    decreases s.len() - i,
{
    if i < s.len() {
        lemma_open_token(s, i + 1);
    }
}

/// Completion and extraction agree on the token before the cursor. If the token being
/// typed starts the text or follows a terminator, the last reference of the text before
/// the cursor is what has been typed, without its trailing punctuation; as long as that
/// has no path, no reference starts there.
pub proof fn law_query_is_last_reference(s: Seq<char>, n: int, q: QueryView)
    requires
        0 <= n <= s.len(),
        query_before(s, n) == Some(q),
        last_position(s.take(n), '@') matches Some(i) && (i == 0 || terminator(s[i - 1])),
    ensures
        ({
            let refs = refs_in(s.take(n));
            let token = stripped(q.text);
            let (path, line) = split_token(token);
            if path.len() > 0 {
                refs.len() > 0 && refs.last() == (PathRefView {
                    start: q.at,
                    end: q.at + 1 + encode_utf8(token).len(),
                    path,
                    line,
                })
            } else {
                forall|k: int| 0 <= k < refs.len() ==> (#[trigger] refs[k]).end < q.at
            }
        }),
{
    let t = s.take(n);
    lemma_last_position(t, '@');
    let i = last_position(t, '@')->0;
    let h = t.take(i + 1);
    let typed = s.subrange(i + 1, n);
    assert(t =~= h + typed);
    assert(t[i] == '@' && s[i] == '@');
    assert(i > 0 ==> t[i - 1] == s[i - 1]);
    assert(char_before(t, i) == char_before(s, i));
    assert(opens_token(t, i));
    assert forall|k: int| i + 1 <= k < t.len() implies !terminator(#[trigger] t[k]) by {
        assert(no_terminator(typed));
        assert(typed[k - i - 1] == t[k]);
    }
    lemma_open_token(t, i + 1);
    lemma_stripped_suffix(h, typed, 0, typed.len() as int);
    lemma_stripped_end(typed, 0, typed.len() as int);
    let token = stripped(typed);
    let j = ref_end(t, i);
    assert(j == i + 1 + token.len());
    assert(t.subrange(i + 1, j) =~= token);
    lemma_byte_offset_step(t, i);
    lemma_byte_offset_split(t, i + 1, j);
    assert(t.take(i) =~= s.take(i));
    assert(q.at == byte_offset(t, i));
    let last = refs_from(t, i);
    assert(refs_from(t, n) == Seq::<PathRefView>::empty());
    let before = if i == 0 {
        Seq::<PathRefView>::empty()
    } else {
        refs_in(t.take(i - 1))
    };
    if i == 0 {
        assert(refs_in(t) =~= before + last);
    } else {
        let a = t.take(i - 1);
        let rest = t.skip(i - 1);
        assert(t =~= a + rest);
        assert(rest[0] == s[i - 1]);
        lemma_refs_prefix(a, rest, 0);
        assert(refs_from(t, i - 1) == last);
        lemma_refs_from_ordered(a, 0);
        assert(a.take(i - 1) =~= t.take(i - 1));
        lemma_byte_offset_mono(t, i - 1, i);
        lemma_byte_offset_ends(a);
    }
    assert(refs_in(t) == before + last);
    if split_token(token).0.len() > 0 {
        let r = ref_from(t, i)->0;
        assert(last =~= seq![r]);
    } else {
        assert(last =~= Seq::<PathRefView>::empty());
        assert(refs_in(t) =~= before);
    }
}

} // verus!
