//! Indexing and search: what is indexed, what is found, and in which order.

use crate::index::{
    by_score, dirs_first, entry_views, fuzzy_score, fuzzy_scores, indexable, indexed_entry, lists,
    matched, path_score, search_order, searched, top_levels, Entry, EntryView, Walked,
};
use crate::limits::scorable;
use crate::rank::{at_most, bytes_less, precedes};
use vstd::prelude::*;
use vstd::utf8::*;

verus! {

/// The score of a path is what the matcher gives, whatever the path looks like, if the
/// path can be scored at all.
pub proof fn law_score_is_the_matchers(query: Seq<char>, rel: Seq<char>)
    ensures
        scorable(query, rel) ==> path_score(query, rel) == fuzzy_score(query, rel),
        !scorable(query, rel) ==> path_score(query, rel) is None,
{
}

/// Whether the entry at `i` is found before the one at `j` by a query: its score is
/// higher, or the same and its path has fewer bytes, or that too and it was indexed
/// earlier.
pub open spec fn ranked_before(
    entries: Seq<Entry>,
    query: Seq<char>,
    i: int,
    j: int,
) -> bool {
    let (a, b) = (
        fuzzy_score(query, entries[i].rel@)->0 as int,
        fuzzy_score(query, entries[j].rel@)->0 as int,
    );
    let (m, n) = (
        encode_utf8(entries[i].rel@).len() as int,
        encode_utf8(entries[j].rel@).len() as int,
    );
    a > b || (a == b && (m < n || (m == n && i < j)))
}

/// Whether the matcher gives the entry at `i` a score.
pub open spec fn is_match(entries: Seq<Entry>, query: Seq<char>, i: int) -> bool {
    &&& 0 <= i < entries.len()
    &&& scorable(query, entries[i].rel@)
    &&& fuzzy_score(query, entries[i].rel@) is Some
}

/// A search finds, each once, the best of the entries that the matcher gives a score: all
/// of them if there are no more than `limit`, else as many as that; and the better ones
/// first.
pub proof fn law_what_a_search_finds(
    entries: Seq<Entry>,
    query: Seq<char>,
    limit: usize,
    found: Seq<&Entry>,
)
    requires
        query.len() > 0,
        searched(entries, query, limit, found),
    ensures
        found.len() <= limit,
        exists|at: Seq<int>|
            {
                &&& #[trigger] found.len() == at.len()
                &&& forall|k: int|
                    0 <= k < found.len() ==> is_match(entries, query, #[trigger] at[k])
                        && *found[k] == entries[at[k]]
                &&& forall|j: int, k: int|
                    0 <= j < k < found.len() ==> ranked_before(
                        entries,
                        query,
                        #[trigger] at[j],
                        #[trigger] at[k],
                    )
                &&& forall|i: int|
                    #[trigger] is_match(entries, query, i) && !at.contains(i) ==> found.len()
                        == limit && forall|k: int|
                        0 <= k < found.len() ==> ranked_before(entries, query, #[trigger] at[k], i)
            },
{
    let order = choose|order: Seq<int>|
        #[trigger] lists(found, entries, order, limit) && search_order(entries, query, order);
    let scores = fuzzy_scores(entries, query);
    let less = by_score(entries, scores);
    let at = order.take(found.len() as int);
    assert forall|i: int| #[trigger] is_match(entries, query, i) <==> 0 <= i < entries.len()
        && matched(scores)[i] by {
        if 0 <= i < entries.len() {
            assert(scores[i] == path_score(query, entries[i].rel@));
        }
    }
    assert forall|k: int| 0 <= k < order.len() implies is_match(
        entries,
        query,
        #[trigger] order[k],
    ) by {
        assert(order.contains(order[k]));
        assert(is_match(entries, query, order[k]) <==> 0 <= order[k] < entries.len() && matched(
            scores,
        )[order[k]]);
    }
    assert forall|j: int, k: int| 0 <= j < k < order.len() implies ranked_before(
        entries,
        query,
        #[trigger] order[j],
        #[trigger] order[k],
    ) by {
        assert(precedes(less, order[j], order[k]));
        assert(is_match(entries, query, order[j]));
        assert(is_match(entries, query, order[k]));
        lemma_by_score(entries, query, order[j], order[k]);
        lemma_by_score(entries, query, order[k], order[j]);
    }
    assert forall|i: int|
        #[trigger] is_match(entries, query, i) && !at.contains(i) implies found.len() == limit
        && forall|k: int|
        0 <= k < found.len() ==> ranked_before(entries, query, #[trigger] at[k], i) by {
        assert(order.contains(i));
        let m = choose|m: int| 0 <= m < order.len() && order[m] == i;
        if m < found.len() {
            assert(at[m] == i);
        }
        assert forall|k: int| 0 <= k < found.len() implies ranked_before(
            entries,
            query,
            #[trigger] at[k],
            i,
        ) by {
            assert(ranked_before(entries, query, order[k], order[m]));
        }
    }
    assert forall|k: int| 0 <= k < found.len() implies is_match(entries, query, #[trigger] at[k])
        && *found[k] == entries[at[k]] by {
        assert(at[k] == order[k]);
    }
    assert(found.len() == at.len());
}

/// The order of scores is the order of matches.
proof fn lemma_by_score(entries: Seq<Entry>, query: Seq<char>, i: int, j: int)
    requires
        is_match(entries, query, i),
        is_match(entries, query, j),
    ensures
        ({
            let (a, b) = (
                fuzzy_score(query, entries[i].rel@)->0 as int,
                fuzzy_score(query, entries[j].rel@)->0 as int,
            );
            by_score(entries, fuzzy_scores(entries, query))(i, j) <==> a > b || (a == b
                && encode_utf8(entries[i].rel@).len() < encode_utf8(entries[j].rel@).len())
        }),
{
    let scores = fuzzy_scores(entries, query);
    assert(scores[i] == path_score(query, entries[i].rel@));
    assert(scores[j] == path_score(query, entries[j].rel@));
}

/// Every path that the matcher gives a score is found, unless `limit` entries were found.
pub proof fn law_every_match_is_found(
    entries: Seq<Entry>,
    query: Seq<char>,
    limit: usize,
    found: Seq<&Entry>,
    i: int,
)
    requires
        query.len() > 0,
        searched(entries, query, limit, found),
        found.len() < limit,
        0 <= i < entries.len(),
        scorable(query, entries[i].rel@),
        fuzzy_score(query, entries[i].rel@) is Some,
    ensures
        found.contains(&entries[i]),
{
    law_what_a_search_finds(entries, query, limit, found);
    let at = choose|at: Seq<int>|
        {
            &&& #[trigger] found.len() == at.len()
            &&& forall|k: int|
                0 <= k < found.len() ==> is_match(entries, query, #[trigger] at[k]) && *found[k]
                    == entries[at[k]]
            &&& forall|j: int, k: int|
                0 <= j < k < found.len() ==> ranked_before(
                    entries,
                    query,
                    #[trigger] at[j],
                    #[trigger] at[k],
                )
            &&& forall|i: int|
                #[trigger] is_match(entries, query, i) && !at.contains(i) ==> found.len() == limit
                    && forall|k: int|
                    0 <= k < found.len() ==> ranked_before(entries, query, #[trigger] at[k], i)
        };
    assert(is_match(entries, query, i));
    assert(at.contains(i));
    let k = choose|k: int| 0 <= k < at.len() && at[k] == i;
    assert(is_match(entries, query, at[k]));
    assert(*found[k] == entries[i]);
}

/// Whether the entry at `i` is listed before the one at `j`: a directory before a file,
/// else the one whose bytes come first, else the one that was indexed earlier.
pub open spec fn listed_before(entries: Seq<Entry>, i: int, j: int) -> bool {
    let (a, b) = (encode_utf8(entries[i].rel@), encode_utf8(entries[j].rel@));
    if entries[i].is_dir != entries[j].is_dir {
        entries[i].is_dir
    } else {
        bytes_less(a, b) || (!bytes_less(b, a) && i < j)
    }
}

/// An empty query finds, each once, what lies directly under the root: all of it if that
/// is no more than `limit`, else what is listed first.
pub proof fn law_what_an_empty_query_finds(
    entries: Seq<Entry>,
    limit: usize,
    found: Seq<&Entry>,
)
    requires
        searched(entries, Seq::<char>::empty(), limit, found),
    ensures
        found.len() <= limit,
        exists|at: Seq<int>|
            {
                &&& #[trigger] found.len() == at.len()
                &&& forall|k: int|
                    0 <= k < found.len() ==> 0 <= #[trigger] at[k] < entries.len() && *found[k]
                        == entries[at[k]] && !entries[at[k]].rel@.contains('/')
                &&& forall|j: int, k: int|
                    0 <= j < k < found.len() ==> listed_before(
                        entries,
                        #[trigger] at[j],
                        #[trigger] at[k],
                    )
                &&& forall|i: int|
                    0 <= i < entries.len() && !(#[trigger] entries[i]).rel@.contains('/')
                        && !at.contains(i) ==> found.len() == limit && forall|k: int|
                        0 <= k < found.len() ==> listed_before(entries, #[trigger] at[k], i)
            },
{
    let query = Seq::<char>::empty();
    let order = choose|order: Seq<int>|
        #[trigger] lists(found, entries, order, limit) && search_order(entries, query, order);
    let less = dirs_first(entries);
    let at = order.take(found.len() as int);
    assert forall|k: int| 0 <= k < order.len() implies 0 <= #[trigger] order[k] < entries.len()
        && !entries[order[k]].rel@.contains('/') by {
        assert(order.contains(order[k]));
        assert(top_levels(entries)[order[k]]);
    }
    assert forall|j: int, k: int| 0 <= j < k < order.len() implies listed_before(
        entries,
        #[trigger] order[j],
        #[trigger] order[k],
    ) by {
        assert(precedes(less, order[j], order[k]));
    }
    assert forall|i: int|
        0 <= i < entries.len() && !(#[trigger] entries[i]).rel@.contains('/') && !at.contains(
            i,
        ) implies found.len() == limit && forall|k: int|
        0 <= k < found.len() ==> listed_before(entries, #[trigger] at[k], i) by {
        assert(top_levels(entries)[i]);
        assert(order.contains(i));
        let m = choose|m: int| 0 <= m < order.len() && order[m] == i;
        if m < found.len() {
            assert(at[m] == i);
        }
        assert forall|k: int| 0 <= k < found.len() implies listed_before(
            entries,
            #[trigger] at[k],
            i,
        ) by {
            assert(listed_before(entries, order[k], order[m]));
        }
    }
    assert forall|k: int| 0 <= k < found.len() implies 0 <= #[trigger] at[k] < entries.len()
        && *found[k] == entries[at[k]] && !entries[at[k]].rel@.contains('/') by {
        assert(at[k] == order[k]);
    }
    assert(found.len() == at.len());
}

/// Byte strings are compared at the first place where they differ; a string that ends
/// there comes first.
pub proof fn law_order_of_bytes(a: Seq<u8>, b: Seq<u8>, k: int)
    requires
        0 <= k <= a.len(),
        k <= b.len(),
        a.take(k) == b.take(k),
    ensures
        k == a.len() && k < b.len() ==> bytes_less(a, b),
        k == b.len() ==> !bytes_less(a, b),
        k < a.len() && k < b.len() && a[k] < b[k] ==> bytes_less(a, b),
        k < a.len() && k < b.len() && a[k] > b[k] ==> !bytes_less(a, b),
    decreases k,
{
    if k > 0 {
        assert(a.take(k)[0] == a[0] && b.take(k)[0] == b[0]);
        let (x, y) = (a.drop_first(), b.drop_first());
        assert(x.take(k - 1) =~= a.take(k).drop_first());
        assert(y.take(k - 1) =~= b.take(k).drop_first());
        law_order_of_bytes(x, y, k - 1);
    }
}

/// What a walk comes across is indexed unless it is the root, could not be read, or is
/// not UTF-8: under the same path, with each backslash as a slash, and as a directory if
/// it is one.
pub proof fn law_what_is_indexed(bytes: Seq<u8>, is_dir: bool)
    ensures
        indexed_entry(None, is_dir) is None,
        indexed_entry(Some(bytes), is_dir) is Some <==> bytes.len() > 0 && valid_utf8(bytes),
        indexed_entry(Some(bytes), is_dir) matches Some(e) ==> {
            &&& e.is_dir == is_dir
            &&& e.rel.len() == decode_utf8(bytes).len()
            &&& forall|i: int|
                0 <= i < e.rel.len() ==> #[trigger] e.rel[i] == (if decode_utf8(bytes)[i] == '\\' {
                    '/'
                } else {
                    decode_utf8(bytes)[i]
                })
        },
{
}

/// Things that a walk comes across one after the other are indexed one after the other.
pub proof fn law_walks_are_indexed_in_order(walk: Seq<Walked>, w: Walked)
    ensures
        indexable(Seq::<Walked>::empty()) == Seq::<EntryView>::empty(),
        indexable(walk.push(w)) == (match w.rel {
            Some(bytes) => match indexed_entry(Some(bytes@), w.is_dir) {
                Some(e) => indexable(walk).push(e),
                None => indexable(walk),
            },
            None => indexable(walk),
        }),
{
    assert(walk.push(w).drop_last() =~= walk);
}

/// An entry says what its fields say.
pub proof fn law_what_entries_say(e: Entry, entries: Seq<Entry>, k: int)
    ensures
        e@.rel == e.rel@,
        e@.is_dir == e.is_dir,
        entry_views(entries).len() == entries.len(),
        0 <= k < entries.len() ==> entry_views(entries)[k] == entries[k]@,
{
}

/// A limit cuts a list, and only if the list is longer.
pub proof fn law_limits_cut(limit: usize, len: nat)
    ensures
        len <= limit ==> at_most(limit, len) == len,
        len > limit ==> at_most(limit, len) == limit,
{
}

} // verus!
