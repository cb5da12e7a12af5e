//! Which paths can be scored: all but those that the matcher cannot take.

use crate::limits::{
    accented, ascii, ascii_lower, capital, counts, disagree_on, folded, folds_to, has_letter,
    keeps_accents, last_word, longest_word, lowered, matchable, may_match, needle_len, needle_width,
    scorable, separates, MAX_MATCHED, MAX_QUERY,
};
use vstd::prelude::*;
use vstd::utf8::*;

verus! {

/// Every ordinary path can be scored for every ordinary query: a query of at most 1310
/// characters, and an ASCII path, such that their sizes multiply to less than 2^31.
pub proof fn law_ordinary_paths_can_be_scored(query: Seq<char>, rel: Seq<char>)
    requires
        query.len() <= 1310,
        encode_utf8(rel).len() * query.len() < 0x8000_0000,
        encode_utf8(rel).len() < 0x8000_0000,
        forall|i: int| 0 <= i < rel.len() ==> (#[trigger] rel[i] as int) < 128,
    ensures
        scorable(query, rel),
{
    lemma_word_lengths(query);
    let size = encode_utf8(rel).len();
    let word = longest_word(query);
    assert(size * word <= 2 * (size * query.len())) by (nonlinear_arith)
        requires
            word <= 2 * query.len(),
    ;
}

/// A path can be scored for every query of at most 1310 characters without a letter that
/// matching may replace, whatever the path holds.
pub proof fn law_plain_queries_score_any_path(query: Seq<char>, rel: Seq<char>)
    requires
        query.len() <= 1310,
        encode_utf8(rel).len() * query.len() < 0x8000_0000,
        encode_utf8(rel).len() < 0x8000_0000,
        forall|i: int| 0 <= i < query.len() ==> (#[trigger] query[i] as int) < 192,
    ensures
        scorable(query, rel),
{
    lemma_word_lengths(query);
    let size = encode_utf8(rel).len();
    let word = longest_word(query);
    assert(size * word <= 2 * (size * query.len())) by (nonlinear_arith)
        requires
            word <= 2 * query.len(),
    ;
    assert forall|a: int, b: int| !#[trigger] keeps_accents(query, a, b) by {
        if keeps_accents(query, a, b) {
            let i = choose|i: int| a <= i < b && accented(#[trigger] query[i]);
            assert((query[i] as int) < 192);
        }
    }
}

/// A query stands for at most two characters for each of its own.
proof fn lemma_word_lengths(query: Seq<char>)
    ensures
        last_word(query) <= needle_len(query) <= 2 * query.len(),
        longest_word(query) <= needle_len(query),
    decreases query.len(),
{
    if query.len() > 0 {
        lemma_word_lengths(query.drop_last());
    }
}

/// A path is left out only where the matcher cannot take it: where a sum would overflow, or
/// where its parts may disagree on a word.
pub proof fn law_what_is_left_out(query: Seq<char>, rel: Seq<char>)
    ensures
        scorable(query, rel) <==> {
            &&& needle_len(query) <= 126322567
            &&& longest_word(query) <= 2621 || matchable(query, rel) <= 2621
            &&& encode_utf8(rel).len() <= 0xffff_ffff
            &&& encode_utf8(rel).len() * longest_word(query) <= usize::MAX || encode_utf8(rel).len()
                * encode_utf8(rel).len() <= usize::MAX
            &&& forall|a: int, b: int|
                #[trigger] keeps_accents(query, a, b) ==> !disagree_on(rel, query[a])
        },
        MAX_MATCHED == 2621,
        MAX_QUERY == 126322567,
{
}

/// Each character of a query counts once, but a backslash twice. A word ends at a space
/// without a backslash before it, and the longest word is at least as long as each other.
pub proof fn law_how_queries_are_measured(query: Seq<char>, c: char)
    ensures
        needle_len(Seq::<char>::empty()) == 0,
        last_word(Seq::<char>::empty()) == 0,
        longest_word(Seq::<char>::empty()) == 0,
        needle_width(c) == (if c == '\\' {
            2nat
        } else {
            1nat
        }),
        needle_len(query.push(c)) == needle_len(query) + needle_width(c),
        c == ' ' && (query.len() == 0 || query.last() != '\\') ==> last_word(query.push(c)) == 0,
        !(c == ' ' && (query.len() == 0 || query.last() != '\\')) ==> last_word(query.push(c))
            == last_word(query) + needle_width(c),
        longest_word(query.push(c)) >= longest_word(query),
        longest_word(query.push(c)) >= last_word(query.push(c)),
        longest_word(query.push(c)) == longest_word(query) || longest_word(query.push(c))
            == last_word(query.push(c)),
{
    assert(query.push(c).drop_last() =~= query);
    if query.len() > 0 {
        assert(query.push(c)[query.len() - 1] == query.last());
    }
}

/// A character of a path can match if it is not ASCII, or if the query has it, whatever the
/// case.
pub proof fn law_what_can_match(query: Seq<char>, rel: Seq<char>, c: char, i: int)
    ensures
        c as int >= 128 ==> may_match(query, c),
        0 <= i < query.len() && (query[i] == c || ('a' <= c <= 'z' && query[i] as int == c as int - 32)
            || ('A' <= c <= 'Z' && query[i] as int == c as int + 32)) ==> may_match(query, c),
        may_match(query, c) && (c as int) < 128 ==> exists|k: int|
            0 <= k < query.len() && (#[trigger] query[k] == c || ('a' <= c <= 'z' && query[k] as int
                == c as int - 32) || ('A' <= c <= 'Z' && query[k] as int == c as int + 32)),
        matchable(query, Seq::<char>::empty()) == 0,
        matchable(query, rel.push(c)) == matchable(query, rel) + (if may_match(query, c) {
            1int
        } else {
            0int
        }),
{
    assert(rel.push(c).drop_last() =~= rel);
    if 0 <= i < query.len() && (query[i] == c || ('a' <= c <= 'z' && query[i] as int == c as int - 32)
        || ('A' <= c <= 'Z' && query[i] as int == c as int + 32)) {
        assert(ascii_lower(query[i]) == ascii_lower(c));
    }
    if may_match(query, c) && (c as int) < 128 {
        let k = choose|k: int| 0 <= k < query.len() && ascii_lower(#[trigger] query[k]) == ascii_lower(c);
        assert(ascii_lower(query[k]) as int == ascii_lower(c) as int);
        assert(query[k] == c || ('a' <= c <= 'z' && query[k] as int == c as int - 32) || ('A' <= c
            <= 'Z' && query[k] as int == c as int + 32));
    }
}

/// The letters that matching may replace lie in four stretches of code points, and those
/// that case folding surely changes in six.
pub proof fn law_classes_of_letters(c: char)
    ensures
        accented(c) <==> 192 <= c as int <= 686 || 867 <= c as int <= 879 || 7424 <= c as int <= 7921
            || 8305 <= c as int <= 8580,
        capital(c) <==> 65 <= c as int <= 90 || 192 <= c as int <= 214 || 216 <= c as int <= 222
            || 913 <= c as int <= 929 || 931 <= c as int <= 939 || 1024 <= c as int <= 1071,
        ascii(c) <==> (c as int) < 128,
{
}

/// What case folding makes of lowercase letters.
pub proof fn law_folded_letters(c: char)
    ensures
        ({
            let (u, f) = (c as int, folded(c) as int);
            &&& u == 181 ==> f == 956
            &&& u == 383 ==> f == 115
            &&& u == 837 || u == 8126 ==> f == 953
            &&& u == 962 ==> f == 963
            &&& u == 976 ==> f == 946
            &&& u == 977 ==> f == 952
            &&& u == 981 ==> f == 966
            &&& u == 982 ==> f == 960
            &&& u == 1008 ==> f == 954
            &&& u == 1009 ==> f == 961
            &&& u == 1013 ==> f == 949
            &&& 5112 <= u <= 5117 ==> f == u - 8
            &&& u == 7296 ==> f == 1074
            &&& u == 7297 ==> f == 1076
            &&& u == 7298 ==> f == 1086
            &&& u == 7299 ==> f == 1089
            &&& u == 7300 || u == 7301 ==> f == 1090
            &&& u == 7302 ==> f == 1098
            &&& u == 7303 ==> f == 1123
            &&& u == 7304 ==> f == 42571
            &&& u == 7835 ==> f == 7777
            &&& 43888 <= u <= 43967 ==> f == u - 38864
            &&& f != u ==> u == 181 || u == 383 || u == 837 || u == 8126 || u == 962 || u == 976 || u
                == 977 || u == 981 || u == 982 || u == 1008 || u == 1009 || u == 1013 || 5112 <= u
                <= 5117 || 7296 <= u <= 7304 || u == 7835 || 43888 <= u <= 43967
        }),
{
}

/// What capitals are lowered to, among the letters that folding gives.
pub proof fn law_lowered_letters(c: char)
    ensures
        ({
            let (u, l) = (c as int, lowered(c) as int);
            let greek = u == 924 || u == 921 || u == 931 || u == 914 || u == 920 || u == 934 || u == 928
                || u == 922 || u == 929 || u == 917;
            let cyrillic = u == 1042 || u == 1044 || u == 1054 || u == 1057 || u == 1058 || u == 1066;
            &&& u == 83 ==> l == 115
            &&& greek || cyrillic ==> l == u + 32
            &&& u == 1012 ==> l == 952
            &&& u == 1122 || u == 42570 || u == 7776 ==> l == u + 1
            &&& !(u == 83 || greek || cyrillic || u == 1012 || u == 1122 || u == 42570 || u == 7776)
                ==> l == u
        }),
{
}

/// Which words keep their accents: those between spaces without a backslash before them, of
/// at least two characters, with an accented letter, without a capital at their start or
/// behind a character below U+0600, and without a `$` at the end, unless a backslash stands
/// before it.
pub proof fn law_words_that_keep_accents(query: Seq<char>, a: int, b: int)
    ensures
        keeps_accents(query, a, b) <==> {
            &&& 0 <= a && a + 2 <= b <= query.len()
            &&& a > 0 ==> query[a - 1] == ' ' && (a == 1 || query[a - 2] != '\\')
            &&& b < query.len() ==> query[b] == ' ' && query[b - 1] != '\\'
            &&& forall|i: int|
                a <= i < b ==> #[trigger] query[i] != ' ' || (i > 0 && query[i - 1] == '\\')
            &&& exists|i: int| a <= i < b && accented(#[trigger] query[i])
            &&& forall|i: int|
                a <= i < b && capital(#[trigger] query[i]) ==> i > 0 && query[i - 1] as int >= 1536
            &&& query[b - 1] == '$' ==> query[b - 2] == '\\'
        },
{
    if keeps_accents(query, a, b) {
        assert forall|i: int| a <= i < b implies #[trigger] query[i] != ' ' || (i > 0 && query[i - 1]
            == '\\') by {
            assert(!separates(query, i));
        }
        assert(b < query.len() ==> separates(query, b));
        assert(a > 0 ==> separates(query, a - 1));
        assert forall|i: int| a <= i < b && capital(#[trigger] query[i]) implies i > 0 && query[i - 1]
            as int >= 1536 by {
            assert(!counts(query, i));
        }
    }
}

/// The parts of the matcher may disagree on a first letter if the path has a letter that
/// folds to it, no such letter itself before that one, counted where it is surely one, one
/// behind it, and from there on a character that is not ASCII.
pub proof fn law_where_parts_disagree(rel: Seq<char>, f: char, j: int, k: int, m: int)
    ensures
        0 <= j < k <= m < rel.len() && rel[j] != f && folded(rel[j]) == f && lowered(rel[k]) == f
            && rel[m] as int >= 128 && (forall|p: int|
            0 <= p < j && lowered(#[trigger] rel[p]) == f ==> p > 0 && rel[p - 1] as int >= 1536)
            ==> disagree_on(rel, f),
        disagree_on(rel, f) ==> exists|x: int, y: int, z: int|
            {
                &&& 0 <= x < y <= z < rel.len()
                &&& #[trigger] rel[x] != f && folded(rel[x]) == f
                &&& lowered(#[trigger] rel[y]) == f
                &&& #[trigger] rel[z] as int >= 128
                &&& forall|p: int|
                    0 <= p < x && lowered(#[trigger] rel[p]) == f ==> p > 0 && rel[p - 1] as int
                        >= 1536
            },
{
    if 0 <= j < k <= m < rel.len() && rel[j] != f && folded(rel[j]) == f && lowered(rel[k]) == f
        && rel[m] as int >= 128 && (forall|p: int|
        0 <= p < j && lowered(#[trigger] rel[p]) == f ==> p > 0 && rel[p - 1] as int >= 1536) {
        assert forall|p: int| 0 <= p < j implies !(#[trigger] has_letter(rel, f, p) && counts(
            rel,
            p,
        )) by {
            assert(lowered(rel[p]) == f ==> p > 0 && rel[p - 1] as int >= 1536);
        }
        law_classes_of_letters(rel[m]);
        assert(folds_to(rel, f, j) && has_letter(rel, f, k) && !ascii(rel[m]));
    }
    if disagree_on(rel, f) {
        let (x, y, z) = choose|x: int, y: int, z: int|
            0 <= x < y <= z < rel.len() && #[trigger] folds_to(rel, f, x) && #[trigger] has_letter(
                rel,
                f,
                y,
            ) && !ascii(#[trigger] rel[z]);
        assert forall|p: int| 0 <= p < x && lowered(#[trigger] rel[p]) == f implies p > 0 && rel[p - 1]
            as int >= 1536 by {
            assert(!(has_letter(rel, f, p) && counts(rel, p)));
        }
        law_classes_of_letters(rel[z]);
        assert(rel[x] != f && lowered(rel[y]) == f && rel[z] as int >= 128);
    }
}

} // verus!
