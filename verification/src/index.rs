//! Project file index with fuzzy path search.
//!
//! The index is a flat list of relative paths, filled by a walk over the project
//! root. Queries are matched with `nucleo-matcher` against the whole relative
//! path, so `src/comp/but` finds `src/components/Button.tsx`.

use crate::chars::{chars_of, decode, replaced};
use crate::limits::{scorable, QueryShape};
use crate::path::same_bytes;
use crate::rank::{
    at_most, bytes_before, bytes_less, first_ranked, indices, is_ranking, law_ranking_is_unique,
    lemma_bytes_weak_order, lemma_ranked, Order,
};
use nucleo_matcher::pattern::{CaseMatching, Normalization, Pattern};
use nucleo_matcher::{Config, Matcher, Utf32Str};
use vstd::prelude::*;
use vstd::string::*;
use vstd::utf8::*;

verus! {

/// One indexed filesystem entry.
#[derive(Debug, Clone, PartialEq, Eq)]
pub struct Entry {
    /// Path relative to the index root, always `/`-separated, no trailing `/`.
    pub rel: String,
    pub is_dir: bool,
}

/// What an [`Entry`] says.
#[verifier::ext_equal]
pub struct EntryView {
    pub rel: Seq<char>,
    pub is_dir: bool,
}

impl View for Entry {
    type V = EntryView;

    open spec fn view(&self) -> EntryView {
        EntryView { rel: self.rel@, is_dir: self.is_dir }
    }
}

/// What a walk came across.
#[derive(Debug)]
pub struct Walked {
    /// The path relative to the root, if it could be read and lies under the root;
    /// empty for the root itself.
    pub rel: Option<Vec<u8>>,
    pub is_dir: bool,
}

/// The files and directories under a root.
#[derive(Debug)]
pub struct FileIndex {
    pub root: Vec<u8>,
    pub entries: Vec<Entry>,
    /// True if the walk hit `max_entries` and stopped early.
    pub truncated: bool,
}

/// What the entries of an index say.
pub open spec fn entry_views(entries: Seq<Entry>) -> Seq<EntryView> {
    entries.map_values(|e: Entry| e@)
}

/// The entry that is indexed for what a walk came across. The root itself and
/// paths that are not UTF-8 are skipped.
pub open spec fn indexed_entry(rel: Option<Seq<u8>>, is_dir: bool) -> Option<EntryView> {
    match rel {
        None => None,
        Some(bytes) => if bytes.len() == 0 || !valid_utf8(bytes) {
            None
        } else {
            Some(EntryView { rel: replaced(decode_utf8(bytes), '\\', '/'), is_dir })
        },
    }
}

/// The path that a walk came across.
pub open spec fn walked_path(w: Walked) -> Option<Seq<u8>> {
    match w.rel {
        Some(bytes) => Some(bytes@),
        None => None,
    }
}

/// The entries for all that a walk came across.
pub open spec fn indexable(walk: Seq<Walked>) -> Seq<EntryView>
    decreases walk.len(),
{
    if walk.len() == 0 {
        Seq::empty()
    } else {
        let init = indexable(walk.drop_last());
        match indexed_entry(walked_path(walk.last()), walk.last().is_dir) {
            Some(e) => init.push(e),
            None => init,
        }
    }
}

/// Whether a walk enters a file or directory with this name: all but `.git`.
/// Hidden files are included, as prompts often reference `.github/` and the like.
pub fn is_walked(name: &[u8]) -> (b: bool)
    ensures
        b == (name@ != encode_utf8(".git"@)),
{
    !same_bytes(name, ".git".as_bytes())
}

/// The text with each `\` replaced by `/`.
fn with_slashes(text: &str) -> (s: String)
    ensures
        s@ == replaced(text@, '\\', '/'),
{
    let chars = chars_of(text);
    let mut s = String::new();
    let mut i: usize = 0;
    while i < chars.len()
        invariant
            chars@ == text@,
            0 <= i <= chars@.len(),
            s@ == replaced(text@, '\\', '/').take(i as int),
        decreases chars.len() - i,
    {
        s.push(if chars[i] == '\\' { '/' } else { chars[i] });
        assert(s@ =~= replaced(text@, '\\', '/').take(i + 1));
        i = i + 1;
    }
    assert(s@ =~= replaced(text@, '\\', '/'));
    s
}

/// The entry for what a walk came across.
fn entry_of(w: Walked) -> (e: Option<Entry>)
    ensures
        match e {
            Some(entry) => indexed_entry(walked_path(w), w.is_dir) == Some(entry@),
            None => indexed_entry(walked_path(w), w.is_dir) is None,
        },
{
    match w.rel {
        None => None,
        Some(bytes) => {
            if bytes.len() == 0 {
                return None;
            }
            match decode(bytes.as_slice()) {
                None => None,
                Some(text) => {
                    proof {
                        encode_utf8_decode_utf8(text@);
                    }
                    Some(Entry { rel: with_slashes(text), is_dir: w.is_dir })
                },
            }
        },
    }
}

impl FileIndex {
    /// An empty index (used before the first build completes).
    pub fn empty(root: Vec<u8>) -> (index: FileIndex)
        ensures
            index.root == root,
            index.entries@.len() == 0,
            !index.truncated,
    {
        FileIndex { root, entries: Vec::new(), truncated: false }
    }

    /// Takes the next thing that a walk came across. Returns whether to walk on: not
    /// once there are `max_entries` entries. An entry for which there is no room is not
    /// added.
    pub fn add_walked(&mut self, w: Walked, max_entries: usize) -> (go_on: bool)
        ensures
            final(self).root == old(self).root,
            match indexed_entry(walked_path(w), w.is_dir) {
                None => final(self).entries == old(self).entries && final(self).truncated == old(
                    self,
                ).truncated && go_on,
                Some(e) => {
                    &&& if old(self).entries@.len() >= max_entries {
                        final(self).entries == old(self).entries
                    } else {
                        entry_views(final(self).entries@) == entry_views(old(self).entries@).push(e)
                    }
                    &&& go_on == (final(self).entries@.len() < max_entries)
                    &&& final(self).truncated == (old(self).truncated || !go_on)
                },
            },
    {
        match entry_of(w) {
            None => true,
            Some(e) => {
                if self.entries.len() < max_entries {
                    let ghost before = self.entries@;
                    self.entries.push(e);
                    assert(entry_views(self.entries@) =~= entry_views(before).push(e@));
                }
                if self.entries.len() >= max_entries {
                    self.truncated = true;
                    return false;
                }
                true
            },
        }
    }

    /// Build the index of `root` from what a walk came across. Stops after
    /// `max_entries` entries.
    pub fn build(root: Vec<u8>, walk: Vec<Walked>, max_entries: usize) -> (index: FileIndex)
        ensures
            index.root == root,
            entry_views(index.entries@) == indexable(walk@).take(
                at_most(max_entries, indexable(walk@).len()),
            ),
            index.entries@.len() <= max_entries,
            index.truncated == (indexable(walk@).len() > 0 && indexable(walk@).len() >= max_entries),
    {
        let ghost all = walk@;
        let mut index = FileIndex::empty(root);
        assert(entry_views(index.entries@) =~= indexable(all.take(0)));
        for w in it: walk
            invariant
                it.seq() == all,
                index.root == root,
                !index.truncated,
                entry_views(index.entries@) == indexable(all.take(it.index() as int)),
                index.entries@.len() < max_entries || index.entries@.len() == 0,
        {
            let ghost n = it.index() as int;
            proof {
                assert(all.take(n + 1).drop_last() =~= all.take(n));
                assert(all.take(n + 1).last() == w);
                assert(entry_views(index.entries@).len() == index.entries@.len());
            }
            if !index.add_walked(w, max_entries) {
                proof {
                    lemma_indexable_prefix(all, n + 1);
                    assert(entry_views(index.entries@).len() == index.entries@.len());
                    assert(entry_views(index.entries@) =~= indexable(all).take(
                        at_most(max_entries, indexable(all).len()),
                    ));
                }
                return index;
            }
        }
        proof {
            assert(all.take(all.len() as int) =~= all);
            assert(entry_views(index.entries@).len() == index.entries@.len());
            assert(entry_views(index.entries@) =~= indexable(all).take(
                at_most(max_entries, indexable(all).len()),
            ));
        }
        index
    }

    /// The directory that the paths are relative to.
    pub fn root(&self) -> (root: &[u8])
        ensures
            root@ == self.root@,
    {
        self.root.as_slice()
    }

    /// Number of entries.
    pub fn len(&self) -> (n: usize)
        ensures
            n == self.entries@.len(),
    {
        self.entries.len()
    }
}

/// The scratch memory that matching reuses.
#[verifier::external_type_specification]
#[verifier::external_body]
pub struct ExMatcher(Matcher);

/// The score of a path for a query, as `Pattern::score` of `nucleo-matcher` gives
/// it for the pattern that `Pattern::parse` makes of the query, with smart case and
/// smart normalization, by a matcher that is configured for paths; `None` if the
/// path does not match.
pub uninterp spec fn fuzzy_score(query: Seq<char>, rel: Seq<char>) -> Option<u32>;

/// A matcher, made by `Matcher::new` of `nucleo-matcher`, with the configuration
/// for paths. Nothing is claimed of it.
#[verifier::external_body]
fn new_matcher() -> (m: Matcher) {
    Matcher::new(Config::DEFAULT.match_paths())
}

/// Scores a path for a query: parses the query with `Pattern::parse` and returns
/// what `Pattern::score` of `nucleo-matcher` gives, which is what [`fuzzy_score`]
/// names. [`scorable`] leaves out what could make the matcher panic. The matcher is
/// configured for paths of the target that the crate is built for; beyond that it is
/// scratch memory, of which nothing is claimed.
#[verifier::external_body]
fn score_path(matcher: &mut Matcher, query: &str, rel: &str) -> (score: Option<u32>)
    requires
        scorable(query@, rel@),
    ensures
        score == fuzzy_score(query@, rel@),
{
    matcher.config = Config::DEFAULT.match_paths();
    let pattern = Pattern::parse(query, CaseMatching::Smart, Normalization::Smart);
    pattern.score(Utf32Str::new(rel, &mut Vec::new()), matcher)
}

/// Number of bytes of a path.
pub open spec fn path_len(e: Entry) -> int {
    encode_utf8(e.rel@).len() as int
}

/// The score of a path for a query; a path that cannot be scored has none.
pub open spec fn path_score(query: Seq<char>, rel: Seq<char>) -> Option<u32> {
    if scorable(query, rel) {
        fuzzy_score(query, rel)
    } else {
        None
    }
}

/// The scores of all paths of an index for a query.
pub open spec fn fuzzy_scores(entries: Seq<Entry>, query: Seq<char>) -> Seq<Option<u32>> {
    entries.map_values(|e: Entry| path_score(query, e.rel@))
}

/// The score, or 0 if there is none.
pub open spec fn score_value(s: Option<u32>) -> u32 {
    match s {
        Some(n) => n,
        None => 0,
    }
}

/// The order of a search: higher score first; break ties by shorter path so
/// `main.rs` beats `deep/nested/main.rs` at equal score.
pub open spec fn by_score(entries: Seq<Entry>, scores: Seq<Option<u32>>) -> spec_fn(
    int,
    int,
) -> bool {
    |i: int, j: int|
        {
            let (a, b) = (score_value(scores[i]), score_value(scores[j]));
            a > b || (a == b && path_len(entries[i]) < path_len(entries[j]))
        }
}

/// The order of a listing: directories first, then by name.
pub open spec fn dirs_first(entries: Seq<Entry>) -> spec_fn(int, int) -> bool {
    |i: int, j: int|
        {
            let (a, b) = (entries[i], entries[j]);
            (a.is_dir && !b.is_dir) || (a.is_dir == b.is_dir && bytes_less(
                encode_utf8(a.rel@),
                encode_utf8(b.rel@),
            ))
        }
}

/// Ranks entries by [`by_score`].
struct ByScore<'a> {
    entries: &'a Vec<Entry>,
    scores: &'a Vec<Option<u32>>,
}

impl<'a> Order for ByScore<'a> {
    closed spec fn size(&self) -> int {
        if self.scores@.len() <= self.entries@.len() {
            self.scores@.len() as int
        } else {
            self.entries@.len() as int
        }
    }

    closed spec fn less(&self) -> spec_fn(int, int) -> bool {
        by_score(self.entries@, self.scores@)
    }

    proof fn lemma_weak_order(&self, i: int, j: int, k: int) {
    }

    fn before(&self, i: usize, j: usize) -> (b: bool) {
        let a: u32 = match self.scores[i] {
            Some(n) => n,
            None => 0,
        };
        let b: u32 = match self.scores[j] {
            Some(n) => n,
            None => 0,
        };
        a > b || (a == b && self.entries[i].rel.as_str().as_bytes().len()
            < self.entries[j].rel.as_str().as_bytes().len())
    }
}

/// Ranks entries by [`dirs_first`].
struct DirsFirst<'a> {
    entries: &'a Vec<Entry>,
}

impl<'a> Order for DirsFirst<'a> {
    closed spec fn size(&self) -> int {
        self.entries@.len() as int
    }

    closed spec fn less(&self) -> spec_fn(int, int) -> bool {
        dirs_first(self.entries@)
    }

    proof fn lemma_weak_order(&self, i: int, j: int, k: int) {
        let (a, b, c) = (self.entries@[i], self.entries@[j], self.entries@[k]);
        lemma_bytes_weak_order(encode_utf8(a.rel@), encode_utf8(b.rel@), encode_utf8(c.rel@));
    }

    fn before(&self, i: usize, j: usize) -> (b: bool) {
        let (a, b) = (&self.entries[i], &self.entries[j]);
        (a.is_dir && !b.is_dir) || (a.is_dir == b.is_dir && bytes_before(
            a.rel.as_str().as_bytes(),
            b.rel.as_str().as_bytes(),
        ))
    }
}

/// What a walk came across first is indexed first.
proof fn lemma_indexable_prefix(walk: Seq<Walked>, n: int)
    requires
        0 <= n <= walk.len(),
    ensures
        indexable(walk.take(n)).len() <= indexable(walk).len(),
        indexable(walk.take(n)) == indexable(walk).take(indexable(walk.take(n)).len() as int),
    decreases walk.len() - n,
{
    if n == walk.len() {
        assert(walk.take(n) =~= walk);
        assert(indexable(walk) =~= indexable(walk).take(indexable(walk).len() as int));
    } else {
        lemma_indexable_prefix(walk, n + 1);
        assert(walk.take(n + 1).drop_last() =~= walk.take(n));
        let a = indexable(walk.take(n));
        let b = indexable(walk.take(n + 1));
        assert(a =~= b.take(a.len() as int));
        assert(a =~= indexable(walk).take(a.len() as int));
    }
}

/// Whether `found` are the first `limit` of the entries that `order` ranks.
pub open spec fn lists(
    found: Seq<&Entry>,
    entries: Seq<Entry>,
    order: Seq<int>,
    limit: usize,
) -> bool {
    &&& found.len() == at_most(limit, order.len())
    &&& forall|k: int| 0 <= k < found.len() ==> *#[trigger] found[k] == entries[order[k]]
}

/// The entries that have a score.
pub open spec fn matched(scores: Seq<Option<u32>>) -> Seq<bool> {
    scores.map_values(|s: Option<u32>| s is Some)
}

/// Whether an entry lies directly under the root.
pub open spec fn top_level(e: Entry) -> bool {
    !e.rel@.contains('/')
}

/// The entries directly under the root.
pub open spec fn top_levels(entries: Seq<Entry>) -> Seq<bool> {
    entries.map_values(|e: Entry| top_level(e))
}

/// Whether a text contains a `/`.
fn has_slash(text: &str) -> (b: bool)
    ensures
        b == text@.contains('/'),
{
    let chars = chars_of(text);
    let mut i: usize = 0;
    while i < chars.len()
        invariant
            chars@ == text@,
            0 <= i <= chars@.len(),
            forall|k: int| 0 <= k < i ==> #[trigger] text@[k] != '/',
        decreases chars.len() - i,
    {
        if chars[i] == '/' {
            assert(text@[i as int] == '/');
            return true;
        }
        i = i + 1;
    }
    false
}

impl FileIndex {
    /// The entries at the given positions.
    fn pick(&self, at: &Vec<usize>) -> (found: Vec<&Entry>)
        requires
            forall|k: int| 0 <= k < at@.len() ==> #[trigger] at@[k] < self.entries@.len(),
        ensures
            found@.len() == at@.len(),
            forall|k: int|
                0 <= k < at@.len() ==> *#[trigger] found@[k] == self.entries@[at@[k] as int],
    {
        let mut found: Vec<&Entry> = Vec::new();
        let mut i: usize = 0;
        while i < at.len()
            invariant
                0 <= i <= at@.len(),
                found@.len() == i,
                forall|k: int| 0 <= k < at@.len() ==> #[trigger] at@[k] < self.entries@.len(),
                forall|k: int|
                    0 <= k < i ==> *#[trigger] found@[k] == self.entries@[at@[k] as int],
            decreases at.len() - i,
        {
            found.push(&self.entries[at[i]]);
            i = i + 1;
        }
        found
    }

    /// The entries directly under the root, directories first, at most `limit`.
    pub fn list_root(&self, limit: usize) -> (found: Vec<&Entry>)
        ensures
            exists|order: Seq<int>|
                #[trigger] is_ranking(
                    dirs_first(self.entries@),
                    self.entries@.len() as int,
                    top_levels(self.entries@),
                    order,
                ) && lists(found@, self.entries@, order, limit),
    {
        let mut keep: Vec<bool> = Vec::new();
        let mut i: usize = 0;
        while i < self.entries.len()
            invariant
                0 <= i <= self.entries@.len(),
                keep@ == top_levels(self.entries@).take(i as int),
            decreases self.entries.len() - i,
        {
            keep.push(!has_slash(self.entries[i].rel.as_str()));
            assert(keep@ =~= top_levels(self.entries@).take(i + 1));
            i = i + 1;
        }
        assert(keep@ =~= top_levels(self.entries@));
        let by = DirsFirst { entries: &self.entries };
        let best = first_ranked(&by, &keep, limit);
        proof {
            let order = choose|order: Seq<int>|
                #[trigger] is_ranking(by.less(), keep@.len() as int, keep@, order) && indices(best@)
                    == order.take(at_most(limit, order.len()));
            lemma_ranked(by, keep@, order, best@, limit);
        }
        self.pick(&best)
    }

    /// The entries that have a score, in the order of a search, at most `limit`.
    pub fn rank(&self, scores: &Vec<Option<u32>>, limit: usize) -> (found: Vec<&Entry>)
        requires
            scores@.len() == self.entries@.len(),
        ensures
            exists|order: Seq<int>|
                #[trigger] is_ranking(
                    by_score(self.entries@, scores@),
                    self.entries@.len() as int,
                    matched(scores@),
                    order,
                ) && lists(found@, self.entries@, order, limit),
    {
        let mut keep: Vec<bool> = Vec::new();
        let mut i: usize = 0;
        while i < scores.len()
            invariant
                0 <= i <= scores@.len(),
                keep@ == matched(scores@).take(i as int),
            decreases scores.len() - i,
        {
            keep.push(scores[i].is_some());
            assert(keep@ =~= matched(scores@).take(i + 1));
            i = i + 1;
        }
        assert(keep@ =~= matched(scores@));
        let by = ByScore { entries: &self.entries, scores };
        let best = first_ranked(&by, &keep, limit);
        proof {
            let order = choose|order: Seq<int>|
                #[trigger] is_ranking(by.less(), keep@.len() as int, keep@, order) && indices(best@)
                    == order.take(at_most(limit, order.len()));
            lemma_ranked(by, keep@, order, best@, limit);
        }
        self.pick(&best)
    }

    /// The scores of all paths for `query`.
    fn score_all(&self, query: &str) -> (scores: Vec<Option<u32>>)
        ensures
            scores@ == fuzzy_scores(self.entries@, query@),
    {
        let mut matcher = new_matcher();
        let shape = QueryShape::new(query);
        let mut scores: Vec<Option<u32>> = Vec::new();
        let mut i: usize = 0;
        while i < self.entries.len()
            invariant
                0 <= i <= self.entries@.len(),
                shape@ == query@,
                scores@ == fuzzy_scores(self.entries@, query@).take(i as int),
            decreases self.entries.len() - i,
        {
            let rel = self.entries[i].rel.as_str();
            let score = if shape.can_score(rel) {
                score_path(&mut matcher, query, rel)
            } else {
                None
            };
            scores.push(score);
            assert(scores@ =~= fuzzy_scores(self.entries@, query@).take(i + 1));
            i = i + 1;
        }
        assert(scores@ =~= fuzzy_scores(self.entries@, query@));
        scores
    }

    /// Fuzzy-search entries by `query`, best matches first, at most `limit`.
    ///
    /// An empty query lists root-level entries (directories first) so that a
    /// bare `@` behaves like a shell `ls`. A path that cannot be scored for the query
    /// is left out.
    pub fn search(&self, query: &str, limit: usize) -> (found: Vec<&Entry>)
        ensures
            searched(self.entries@, query@, limit, found@),
    {
        if query.is_empty() {
            return self.list_root(limit);
        }
        let scores = self.score_all(query);
        self.rank(&scores, limit)
    }
}

/// Whether `found` is what a search gives.
pub open spec fn searched(
    entries: Seq<Entry>,
    query: Seq<char>,
    limit: usize,
    found: Seq<&Entry>,
) -> bool {
    exists|order: Seq<int>|
        #[trigger] lists(found, entries, order, limit) && search_order(entries, query, order)
}

/// Whether `order` is the order in which a search finds entries.
pub open spec fn search_order(entries: Seq<Entry>, query: Seq<char>, order: Seq<int>) -> bool {
    if query.len() == 0 {
        is_ranking(dirs_first(entries), entries.len() as int, top_levels(entries), order)
    } else {
        let scores = fuzzy_scores(entries, query);
        is_ranking(by_score(entries, scores), entries.len() as int, matched(scores), order)
    }
}

/// A search finds at most `limit` entries, all of them entries of the index.
pub proof fn law_search_finds_entries(
    entries: Seq<Entry>,
    query: Seq<char>,
    limit: usize,
    found: Seq<&Entry>,
)
    requires
        searched(entries, query, limit, found),
    ensures
        found.len() <= limit,
        forall|k: int| 0 <= k < found.len() ==> entries.contains(*#[trigger] found[k]),
{
    let order = choose|order: Seq<int>|
        #[trigger] lists(found, entries, order, limit) && search_order(entries, query, order);
    assert forall|k: int| 0 <= k < found.len() implies entries.contains(*#[trigger] found[k]) by {
        assert(order.contains(order[k]));
        assert(entries[order[k]] == *found[k]);
    }
}

/// A search with a query finds matching paths only, those with higher scores
/// first, and of two with the same score the shorter one first.
pub proof fn law_search_best_first(
    entries: Seq<Entry>,
    query: Seq<char>,
    limit: usize,
    found: Seq<&Entry>,
    j: int,
    k: int,
)
    requires
        query.len() > 0,
        searched(entries, query, limit, found),
        0 <= j < k < found.len(),
    ensures
        ({
            let a = path_score(query, found[j].rel@);
            let b = path_score(query, found[k].rel@);
            &&& a is Some && b is Some
            &&& a->0 >= b->0
            &&& a->0 == b->0 ==> path_len(*found[j]) <= path_len(*found[k])
        }),
{
    let order = choose|order: Seq<int>|
        #[trigger] lists(found, entries, order, limit) && search_order(entries, query, order);
    let scores = fuzzy_scores(entries, query);
    assert(order.contains(order[j]) && order.contains(order[k]));
    assert(matched(scores)[order[j]] && matched(scores)[order[k]]);
}

/// Every matching path is found, unless `limit` entries were found.
pub proof fn law_search_is_complete(
    entries: Seq<Entry>,
    query: Seq<char>,
    limit: usize,
    found: Seq<&Entry>,
    i: int,
)
    requires
        query.len() > 0,
        searched(entries, query, limit, found),
        found.len() < limit,
        0 <= i < entries.len(),
        path_score(query, entries[i].rel@) is Some,
    ensures
        found.contains(&entries[i]),
{
    let order = choose|order: Seq<int>|
        #[trigger] lists(found, entries, order, limit) && search_order(entries, query, order);
    assert(matched(fuzzy_scores(entries, query))[i]);
    assert(order.contains(i));
    let k = choose|k: int| 0 <= k < order.len() && order[k] == i;
    assert(*found[k] == entries[order[k]]);
}

/// An empty query lists what lies directly under the root: directories before
/// files, and each of the two by name.
pub proof fn law_empty_query_lists_root(
    entries: Seq<Entry>,
    limit: usize,
    found: Seq<&Entry>,
    j: int,
    k: int,
)
    requires
        searched(entries, Seq::<char>::empty(), limit, found),
        0 <= j < k < found.len(),
    ensures
        top_level(*found[j]),
        top_level(*found[k]),
        found[k].is_dir ==> found[j].is_dir,
        found[j].is_dir == found[k].is_dir ==> !bytes_less(
            encode_utf8(found[k].rel@),
            encode_utf8(found[j].rel@),
        ),
{
    let query = Seq::<char>::empty();
    let order = choose|order: Seq<int>|
        #[trigger] lists(found, entries, order, limit) && search_order(entries, query, order);
    assert(order.contains(order[j]) && order.contains(order[k]));
    assert(top_levels(entries)[order[j]] && top_levels(entries)[order[k]]);
    lemma_bytes_weak_order(
        encode_utf8(found[k].rel@),
        encode_utf8(found[j].rel@),
        encode_utf8(found[k].rel@),
    );
}

/// What a search finds, and in which order, is determined by the index, the query
/// and the limit.
pub proof fn law_search_is_determined(
    entries: Seq<Entry>,
    query: Seq<char>,
    limit: usize,
    x: Seq<&Entry>,
    y: Seq<&Entry>,
)
    requires
        searched(entries, query, limit, x),
        searched(entries, query, limit, y),
    ensures
        x == y,
{
    let a = choose|order: Seq<int>|
        #[trigger] lists(x, entries, order, limit) && search_order(entries, query, order);
    let b = choose|order: Seq<int>|
        #[trigger] lists(y, entries, order, limit) && search_order(entries, query, order);
    let n = entries.len() as int;
    if query.len() == 0 {
        let less = dirs_first(entries);
        assert forall|i: int, j: int, k: int|
            0 <= i < n && 0 <= j < n && 0 <= k < n && #[trigger] less(i, k) implies #[trigger] less(
            i,
            j,
        ) || less(j, k) by {
            lemma_bytes_weak_order(
                encode_utf8(entries[i].rel@),
                encode_utf8(entries[j].rel@),
                encode_utf8(entries[k].rel@),
            );
        }
        assert forall|i: int, j: int| 0 <= i < n && 0 <= j < n implies !(#[trigger] less(i, j)
            && less(j, i)) by {
            lemma_bytes_weak_order(
                encode_utf8(entries[i].rel@),
                encode_utf8(entries[j].rel@),
                encode_utf8(entries[i].rel@),
            );
        }
        law_ranking_is_unique(less, n, top_levels(entries), a, b);
    } else {
        let scores = fuzzy_scores(entries, query);
        law_ranking_is_unique(by_score(entries, scores), n, matched(scores), a, b);
    }
    assert(x =~= y);
}

/// The limit only cuts the list: a search with a smaller limit finds the first of what
/// a search with a larger one finds.
pub proof fn law_search_limit_only_cuts(
    entries: Seq<Entry>,
    query: Seq<char>,
    n: usize,
    big: Seq<&Entry>,
    k: usize,
)
    requires
        searched(entries, query, n, big),
        k <= n,
    ensures
        searched(entries, query, k, big.take(at_most(k, big.len()))),
        at_most(k, big.len()) <= k,
{
    let order = choose|order: Seq<int>|
        #[trigger] lists(big, entries, order, n) && search_order(entries, query, order);
    let small = big.take(at_most(k, big.len()));
    assert forall|i: int| 0 <= i < small.len() implies *#[trigger] small[i] == entries[order[i]] by {
        assert(small[i] == big[i]);
    }
    assert(lists(small, entries, order, k));
}

/// Indexed paths are `/`-separated and not empty, and end in no `/` unless the path
/// that the walk came across ends in a separator.
pub proof fn law_indexed_paths_use_slashes(bytes: Seq<u8>, is_dir: bool)
    requires
        indexed_entry(Some(bytes), is_dir) is Some,
    ensures
        ({
            let rel = indexed_entry(Some(bytes), is_dir)->0.rel;
            &&& rel.len() > 0
            &&& !rel.contains('\\')
            &&& rel.last() == '/' <==> (decode_utf8(bytes).last() == '/' || decode_utf8(
                bytes,
            ).last() == '\\')
        }),
{
    let text = decode_utf8(bytes);
    decode_utf8_encode_utf8(bytes);
    assert(text.len() > 0);
    let rel = replaced(text, '\\', '/');
    assert forall|k: int| 0 <= k < rel.len() implies #[trigger] rel[k] != '\\' by {}
}

} // verus!
