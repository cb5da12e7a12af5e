//! The state of the language server and its answers: completion, diagnostics, hover
//! and definition for `@path` references in one-shot prompt files.

use crate::chars::{
    byte_offset, lemma_byte_offset_ends, lemma_byte_offset_injective, lemma_byte_offset_mono, lemma_byte_offset_step,
    lemma_offset_is_boundary,
};
use crate::format::{
    decimal, decimal_text, law_padded_keeps_order, padded, padded_text, text_less,
};
use crate::index::{
    law_search_finds_entries, law_search_is_determined, searched, Entry, FileIndex,
};
use crate::path::{copy_bytes, is_under, join, joined, stays_under};
use crate::refs::{
    find_refs, first_spanning, law_ref_at_sound, law_ref_shape, query_at, query_before, ref_at,
    refs_in, terminator, views, PathRef, PathRefView, QueryView,
};
use crate::seqs::{last_position, lemma_last_position};
use crate::text::{
    clamped_index, index_of, law_position_round_trip, lemma_index_of, lemma_same_line, position_of,
    Document, Position, Range,
};
use vstd::hash_map::StringHashMap;
use vstd::prelude::*;
use vstd::string::*;
use vstd::utf8::*;

verus! {

/// Maximum number of completion candidates returned per request.
pub const COMPLETION_LIMIT: usize = 50;

/// Number of digits of a sort key.
pub const SORT_DIGITS: usize = 5;

/// The state of the server.
pub struct Backend {
    pub root: Vec<u8>,
    /// The root as it is shown in messages.
    pub root_name: String,
    pub max_entries: usize,
    /// Swapped wholesale on rebuild so readers never see a half-built index.
    pub index: FileIndex,
    /// The open documents, by their URI.
    pub docs: StringHashMap<Document>,
}

/// A reference to a path that does not exist.
#[derive(Debug)]
pub struct Diagnostic {
    pub range: Range,
    pub message: String,
}

/// What a [`Diagnostic`] says.
#[verifier::ext_equal]
pub struct DiagnosticView {
    pub range: Range,
    pub message: Seq<char>,
}

impl View for Diagnostic {
    type V = DiagnosticView;

    open spec fn view(&self) -> DiagnosticView {
        DiagnosticView { range: self.range, message: self.message@ }
    }
}

/// One path that is offered.
#[derive(Debug)]
pub struct CompletionItem {
    /// The path, with a trailing `/` if it is a directory. It is the label, the text
    /// that clients filter by and the text that is inserted.
    pub insert: String,
    pub is_dir: bool,
    /// Keeps the items in the order of the search.
    pub sort_text: String,
}

/// The paths that are offered for the token being typed.
#[derive(Debug)]
pub struct Completion {
    /// What an accepted item replaces: from just after the `@` to the cursor.
    pub range: Range,
    pub items: Vec<CompletionItem>,
}

/// The file and line that a reference points to.
#[derive(Debug)]
pub struct Definition {
    pub path: Vec<u8>,
    /// 0-based.
    pub line: u32,
}

/// The text of an open document.
pub open spec fn open_text(docs: Map<Seq<char>, Document>, uri: Seq<char>) -> Option<Seq<char>> {
    if docs.contains_key(uri) {
        Some(docs[uri]@)
    } else {
        None
    }
}

/// The range of a reference in a text.
pub open spec fn ref_range(s: Seq<char>, r: PathRefView) -> Range {
    Range {
        start: position_of(s, clamped_index(s, r.start)),
        end: position_of(s, clamped_index(s, r.end)),
    }
}

/// The diagnostic for a reference to a path that does not exist.
pub open spec fn missing(s: Seq<char>, r: PathRefView, root_name: Seq<char>) -> DiagnosticView {
    DiagnosticView {
        range: ref_range(s, r),
        message: "`"@ + r.path + "` does not exist under "@ + root_name,
    }
}

/// The diagnostics for those of `refs` that `exists` does not mark, in order.
pub open spec fn diagnosed(
    s: Seq<char>,
    refs: Seq<PathRefView>,
    exists: Seq<bool>,
    root_name: Seq<char>,
) -> Seq<DiagnosticView>
    decreases refs.len(),
{
    if refs.len() == 0 {
        Seq::empty()
    } else {
        let init = diagnosed(s, refs.drop_last(), exists, root_name);
        if exists[refs.len() - 1] {
            init
        } else {
            init.push(missing(s, refs.last(), root_name))
        }
    }
}

/// What diagnostics say.
pub open spec fn diagnostic_views(v: Seq<Diagnostic>) -> Seq<DiagnosticView> {
    v.map_values(|d: Diagnostic| d@)
}

/// The reference at a position of a text.
pub open spec fn ref_at_pos(s: Seq<char>, pos: Position) -> Option<PathRefView> {
    match index_of(s, pos) {
        Some(i) => first_spanning(refs_in(s), byte_offset(s, i)),
        None => None,
    }
}

/// The token that is being typed at a position of a text.
pub open spec fn query_at_pos(s: Seq<char>, pos: Position) -> Option<QueryView> {
    match index_of(s, pos) {
        Some(i) => query_before(s, i),
        None => None,
    }
}

/// The line that a definition points to: the hint is 1-based, the result 0-based.
pub open spec fn target_line(hint: Option<u32>) -> int {
    match hint {
        Some(n) => if n == 0 {
            0
        } else {
            n - 1
        },
        None => 0,
    }
}

/// Whether `item` offers the entry that was found at place `k`.
pub open spec fn offers(item: CompletionItem, e: Entry, k: int) -> bool {
    &&& item.insert@ == (if e.is_dir {
        e.rel@ + "/"@
    } else {
        e.rel@
    })
    &&& item.is_dir == e.is_dir
    &&& item.sort_text@ == padded(k as nat, SORT_DIGITS as nat)
}

/// Whether `c` is the completion for a token in a text, up to the cursor at `pos`.
pub open spec fn completes(
    c: Completion,
    entries: Seq<Entry>,
    s: Seq<char>,
    q: QueryView,
    pos: Position,
) -> bool {
    &&& c.range == (Range {
        start: position_of(s, clamped_index(s, q.at + 1)),
        end: pos,
    })
    &&& exists|found: Seq<&Entry>|
        {
            &&& #[trigger] searched(entries, q.text, COMPLETION_LIMIT, found)
            &&& c.items@.len() == found.len()
            &&& forall|k: int| 0 <= k < found.len() ==> offers(#[trigger] c.items@[k], *found[k], k)
        }
}

/// The message after the index was built.
pub open spec fn index_message(
    entries: nat,
    root_name: Seq<char>,
    truncated: bool,
) -> Seq<char> {
    let msg = "promptls: indexed "@ + decimal(entries) + " entries under "@ + root_name;
    if truncated {
        msg + " (truncated; raise --max-entries)"@
    } else {
        msg
    }
}

/// The offsets of a reference are character boundaries of the text.
proof fn lemma_ref_offsets(s: Seq<char>, k: int)
    requires
        0 <= k < refs_in(s).len(),
    ensures
        is_char_boundary(encode_utf8(s), refs_in(s)[k].start),
        is_char_boundary(encode_utf8(s), refs_in(s)[k].end),
{
    law_ref_shape(s, k);
    let (i, j) = choose|i: int, j: int|
        0 <= i < j <= s.len() && refs_in(s)[k].start == #[trigger] byte_offset(s, i)
            && refs_in(s)[k].end == #[trigger] byte_offset(s, j);
    lemma_offset_is_boundary(s, i);
    lemma_offset_is_boundary(s, j);
}

/// The range of a reference.
fn range_of(doc: &Document, r: &PathRef) -> (range: Range)
    requires
        is_char_boundary(encode_utf8(doc@), r.start as int),
        is_char_boundary(encode_utf8(doc@), r.end as int),
    ensures
        range == ref_range(doc@, r@),
{
    Range::new(doc.offset_to_position(r.start), doc.offset_to_position(r.end))
}

/// The items for the entries that a search found.
fn items_for(found: &Vec<&Entry>) -> (items: Vec<CompletionItem>)
    ensures
        items@.len() == found@.len(),
        forall|k: int| 0 <= k < found@.len() ==> offers(#[trigger] items@[k], *found@[k], k),
{
    let mut items: Vec<CompletionItem> = Vec::new();
    let mut i: usize = 0;
    while i < found.len()
        invariant
            0 <= i <= found@.len(),
            items@.len() == i,
            forall|k: int| 0 <= k < i ==> offers(#[trigger] items@[k], *found@[k], k),
        decreases found.len() - i,
    {
        let e = found[i];
        let mut insert = e.rel.as_str().to_owned();
        if e.is_dir {
            insert.append("/");
        }
        let sort_text = padded_text(i as u64, SORT_DIGITS);
        items.push(CompletionItem { insert, is_dir: e.is_dir, sort_text });
        i = i + 1;
    }
    items
}

impl Backend {
    pub fn new(root: Vec<u8>, root_name: String, max_entries: usize) -> (b: Backend)
        ensures
            b.root@ == root@,
            b.root_name@ == root_name@,
            b.max_entries == max_entries,
            b.index.root@ == root@,
            b.index.entries@ == Seq::<Entry>::empty(),
            !b.index.truncated,
            b.docs@ == Map::<Seq<char>, Document>::empty(),
    {
        let index_root = copy_bytes(root.as_slice(), 0, root.len());
        assert(index_root@ =~= root@);
        Backend {
            root,
            root_name,
            max_entries,
            index: FileIndex::empty(index_root),
            docs: StringHashMap::new(),
        }
    }

    /// Swaps in an index that was built, and returns the message that tells of it.
    pub fn rebuild_index(&mut self, built: FileIndex) -> (msg: String)
        ensures
            *final(self) == (Backend { index: built, ..*old(self) }),
            msg@ == index_message(built.entries@.len(), old(self).root_name@, built.truncated),
    {
        let mut msg = "promptls: indexed ".to_owned();
        msg.append(decimal_text(built.len() as u64).as_str());
        msg.append(" entries under ");
        msg.append(self.root_name.as_str());
        if built.truncated {
            msg.append(" (truncated; raise --max-entries)");
        }
        self.index = built;
        msg
    }

    /// The path that a reference means.
    pub fn resolve(&self, rel: &str) -> (path: Vec<u8>)
        ensures
            path@ == joined(self.root@, encode_utf8(rel@)),
    {
        join(self.root.as_slice(), rel.as_bytes())
    }

    /// Whether a path names something under the root, as far as its components tell. A
    /// reference to any other path is to be diagnosed, whether it exists or not.
    pub fn under_root(&self, path: &[u8]) -> (b: bool)
        ensures
            b == stays_under(path@, self.root@),
    {
        is_under(path, self.root.as_slice())
    }

    /// The paths that the references of a document mean.
    pub fn ref_paths(&self, doc: &Document) -> (paths: Vec<Vec<u8>>)
        ensures
            paths@.len() == refs_in(doc@).len(),
            forall|k: int|
                0 <= k < paths@.len() ==> (#[trigger] paths@[k])@ == joined(
                    self.root@,
                    encode_utf8(refs_in(doc@)[k].path),
                ),
    {
        let refs = find_refs(doc.text());
        let mut paths: Vec<Vec<u8>> = Vec::new();
        let mut i: usize = 0;
        assert(views(refs@).len() == refs@.len());
        while i < refs.len()
            invariant
                views(refs@) == refs_in(doc@),
                0 <= i <= refs@.len(),
                paths@.len() == i,
                forall|k: int|
                    0 <= k < i ==> (#[trigger] paths@[k])@ == joined(
                        self.root@,
                        encode_utf8(refs_in(doc@)[k].path),
                    ),
            decreases refs.len() - i,
        {
            assert(views(refs@)[i as int] == refs@[i as int]@);
            paths.push(self.resolve(refs[i].path.as_str()));
            i = i + 1;
        }
        paths
    }

    /// The diagnostics for a document: one for each reference to a path that does not
    /// exist under the root. `exists` tells of each reference whether its path does.
    pub fn publish_diagnostics(&self, doc: &Document, exists: &Vec<bool>) -> (diags: Vec<Diagnostic>)
        requires
            exists@.len() == refs_in(doc@).len(),
        ensures
            diagnostic_views(diags@) == diagnosed(doc@, refs_in(doc@), exists@, self.root_name@),
    {
        let refs = find_refs(doc.text());
        let ghost s = doc@;
        let ghost all = refs_in(s);
        let mut diags: Vec<Diagnostic> = Vec::new();
        let mut k: usize = 0;
        assert(all.take(0) =~= Seq::<PathRefView>::empty());
        while k < refs.len()
            invariant
                s == doc@,
                all == refs_in(s),
                all == views(refs@),
                exists@.len() == all.len(),
                0 <= k <= refs@.len(),
                diagnostic_views(diags@) == diagnosed(s, all.take(k as int), exists@, self.root_name@),
            decreases refs.len() - k,
        {
            let r = &refs[k];
            proof {
                assert(all[k as int] == r@);
                assert(all.take(k + 1).drop_last() =~= all.take(k as int));
                assert(all.take(k + 1).last() == r@);
            }
            if !exists[k] {
                proof {
                    lemma_ref_offsets(s, k as int);
                }
                let range = range_of(doc, r);
                let mut message = "`".to_owned();
                message.append(r.path.as_str());
                message.append("` does not exist under ");
                message.append(self.root_name.as_str());
                let ghost before = diags@;
                diags.push(Diagnostic { range, message });
                assert(diagnostic_views(diags@) =~= diagnostic_views(before).push(
                    missing(s, r@, self.root_name@),
                ));
            }
            k = k + 1;
        }
        assert(all.take(k as int) =~= all);
        diags
    }


    /// An open document.
    pub fn document(&self, uri: &str) -> (doc: Option<&Document>)
        ensures
            match doc {
                Some(d) => open_text(self.docs@, uri@) == Some(d@),
                None => open_text(self.docs@, uri@) is None,
            },
    {
        self.docs.get(uri)
    }

    /// A document was opened.
    pub fn did_open(&mut self, uri: String, text: String)
        ensures
            exists|doc: Document|
                doc@ == text@ && #[trigger] old(self).docs@.insert(uri@, doc) == final(self).docs@,
            final(self).root == old(self).root,
            final(self).root_name == old(self).root_name,
            final(self).max_entries == old(self).max_entries,
            final(self).index == old(self).index,
    {
        let doc = Document::new(text);
        self.docs.insert(uri, doc);
        assert(old(self).docs@.insert(uri@, doc) == self.docs@);
    }

    /// A document was changed. Changes carry the whole document, so the last one
    /// counts; returns whether there was one.
    pub fn did_change(&mut self, uri: String, changes: Vec<String>) -> (changed: bool)
        ensures
            changed == (changes@.len() > 0),
            if changes@.len() > 0 {
                exists|doc: Document|
                    doc@ == changes@.last()@ && #[trigger] old(self).docs@.insert(uri@, doc)
                        == final(self).docs@
            } else {
                final(self).docs@ == old(self).docs@
            },
            final(self).root == old(self).root,
            final(self).root_name == old(self).root_name,
            final(self).max_entries == old(self).max_entries,
            final(self).index == old(self).index,
    {
        let mut changes = changes;
        match changes.pop() {
            Some(text) => {
                self.did_open(uri, text);
                true
            },
            None => false,
        }
    }

    /// A document was closed.
    pub fn did_close(&mut self, uri: &str)
        ensures
            final(self).docs@ == old(self).docs@.remove(uri@),
            final(self).root == old(self).root,
            final(self).root_name == old(self).root_name,
            final(self).max_entries == old(self).max_entries,
            final(self).index == old(self).index,
    {
        self.docs.remove(uri);
    }

    /// Locate the document and the `@path` reference under `pos`.
    pub fn ref_at_position(&self, uri: &str, pos: Position) -> (r: Option<(&Document, PathRef)>)
        ensures
            match r {
                Some((doc, found)) => open_text(self.docs@, uri@) == Some(doc@) && ref_at_pos(
                    doc@,
                    pos,
                ) == Some(found@),
                None => match open_text(self.docs@, uri@) {
                    Some(s) => ref_at_pos(s, pos) is None,
                    None => true,
                },
            },
    {
        let doc = match self.document(uri) {
            Some(doc) => doc,
            None => return None,
        };
        let offset = match doc.position_to_offset(pos) {
            Some(offset) => offset,
            None => return None,
        };
        match ref_at(doc.text(), offset) {
            Some(found) => Some((doc, found)),
            None => None,
        }
    }

    /// The reference that a hover at `pos` is about, and its range.
    pub fn hover(&self, uri: &str, pos: Position) -> (r: Option<(PathRef, Range)>)
        ensures
            match r {
                Some((found, range)) => match open_text(self.docs@, uri@) {
                    Some(s) => ref_at_pos(s, pos) == Some(found@) && range == ref_range(s, found@),
                    None => false,
                },
                None => match open_text(self.docs@, uri@) {
                    Some(s) => ref_at_pos(s, pos) is None,
                    None => true,
                },
            },
    {
        match self.ref_at_position(uri, pos) {
            Some((doc, found)) => {
                proof {
                    let i = index_of(doc@, pos)->0;
                    law_ref_at_sound(doc@, byte_offset(doc@, i));
                    let k = choose|k: int|
                        0 <= k < refs_in(doc@).len() && refs_in(doc@)[k] == found@;
                    lemma_ref_offsets(doc@, k);
                }
                let range = range_of(doc, &found);
                Some((found, range))
            },
            None => None,
        }
    }

    /// Where the reference at `pos` points to. The answer is due only if the path
    /// exists.
    pub fn goto_definition(&self, uri: &str, pos: Position) -> (r: Option<Definition>)
        ensures
            match r {
                Some(d) => match open_text(self.docs@, uri@) {
                    Some(s) => match ref_at_pos(s, pos) {
                        Some(found) => d.path@ == joined(self.root@, encode_utf8(found.path))
                            && d.line == target_line(found.line),
                        None => false,
                    },
                    None => false,
                },
                None => match open_text(self.docs@, uri@) {
                    Some(s) => ref_at_pos(s, pos) is None,
                    None => true,
                },
            },
    {
        match self.ref_at_position(uri, pos) {
            Some((_, found)) => {
                // The `:LINE` hint is 1-based; LSP lines are 0-based.
                let line: u32 = match found.line {
                    Some(n) => if n == 0 {
                        0
                    } else {
                        n - 1
                    },
                    None => 0,
                };
                Some(Definition { path: self.resolve(found.path.as_str()), line })
            },
            None => None,
        }
    }

    /// The paths that are offered for the token being typed at `pos`; `None` outside a
    /// token.
    pub fn completion(&self, uri: &str, pos: Position) -> (r: Option<Completion>)
        ensures
            match open_text(self.docs@, uri@) {
                Some(s) => match query_at_pos(s, pos) {
                    Some(q) => r is Some && completes(r->0, self.index.entries@, s, q, pos),
                    None => r is None,
                },
                None => r is None,
            },
    {
        let doc = match self.document(uri) {
            Some(doc) => doc,
            None => return None,
        };
        let cursor = match doc.position_to_offset(pos) {
            Some(cursor) => cursor,
            None => return None,
        };
        let ghost s = doc@;
        let ghost i = index_of(s, pos)->0;
        proof {
            lemma_index_of(s, pos);
            lemma_offset_is_boundary(s, i);
        }
        let q = match query_at(doc.text(), cursor) {
            Some(q) => q,
            None => return None,
        };
        proof {
            lemma_query_at(s, i);
        }
        let range = Range::new(doc.offset_to_position(q.at + 1), pos);
        let found = self.index.search(q.text.as_str(), COMPLETION_LIMIT);
        let items = items_for(&found);
        let c = Completion { range, items };
        proof {
            assert(query_at_pos(s, pos) == Some(q@));
            assert(searched(self.index.entries@, q@.text, COMPLETION_LIMIT, found@));
            assert(completes(c, self.index.entries@, s, q@, pos));
        }
        Some(c)
    }
}

/// A query starts with an `@`, so what follows it starts on a character boundary.
proof fn lemma_query_at(s: Seq<char>, n: int)
    requires
        0 <= n <= s.len(),
        query_before(s, n) is Some,
    ensures
        is_char_boundary(encode_utf8(s), query_before(s, n)->0.at + 1),
        query_before(s, n)->0.at < byte_offset(s, n),
{
    lemma_last_position(s.take(n), '@');
    let at = last_position(s.take(n), '@')->0;
    assert(s[at] == '@');
    lemma_byte_offset_step(s, at);
    lemma_byte_offset_mono(s, at + 1, n);
    lemma_offset_is_boundary(s, at + 1);
}

/// An open document has the text that it was opened or last changed with; other
/// documents keep theirs.
pub proof fn law_document_reads_back(
    docs: Map<Seq<char>, Document>,
    uri: Seq<char>,
    doc: Document,
    other: Seq<char>,
)
    ensures
        open_text(docs.insert(uri, doc), uri) == Some(doc@),
        other != uri ==> open_text(docs.insert(uri, doc), other) == open_text(docs, other),
{
}

/// A closed document has no text, so nothing is answered for it; other documents keep
/// theirs.
pub proof fn law_closed_document_is_gone(
    docs: Map<Seq<char>, Document>,
    uri: Seq<char>,
    other: Seq<char>,
)
    ensures
        open_text(docs.remove(uri), uri) is None,
        other != uri ==> open_text(docs.remove(uri), other) == open_text(docs, other),
{
}

/// Each reference to a path that does not exist has a diagnostic.
pub proof fn law_missing_paths_are_diagnosed(
    s: Seq<char>,
    refs: Seq<PathRefView>,
    exists: Seq<bool>,
    root_name: Seq<char>,
    k: int,
)
    requires
        0 <= k < refs.len(),
        !exists[k],
    ensures
        diagnosed(s, refs, exists, root_name).contains(missing(s, refs[k], root_name)),
    decreases refs.len(),
{
    let init = diagnosed(s, refs.drop_last(), exists, root_name);
    let all = diagnosed(s, refs, exists, root_name);
    let d = missing(s, refs[k], root_name);
    if k < refs.len() - 1 {
        law_missing_paths_are_diagnosed(s, refs.drop_last(), exists, root_name, k);
        let i = choose|i: int| 0 <= i < init.len() && init[i] == d;
        assert(all[i] == d);
    } else {
        assert(all[all.len() - 1] == d);
    }
}

/// Each diagnostic is for a reference to a path that does not exist.
pub proof fn law_only_missing_paths_are_diagnosed(
    s: Seq<char>,
    refs: Seq<PathRefView>,
    exists: Seq<bool>,
    root_name: Seq<char>,
    i: int,
)
    requires
        0 <= i < diagnosed(s, refs, exists, root_name).len(),
    ensures
        exists|k: int|
            0 <= k < refs.len() && !exists[k] && diagnosed(s, refs, exists, root_name)[i]
                == missing(s, #[trigger] refs[k], root_name),
    decreases refs.len(),
{
    if refs.len() > 0 {
        let init = diagnosed(s, refs.drop_last(), exists, root_name);
        if i < init.len() {
            law_only_missing_paths_are_diagnosed(s, refs.drop_last(), exists, root_name, i);
            let k = choose|k: int|
                0 <= k < refs.drop_last().len() && !exists[k] && init[i] == missing(
                    s,
                    #[trigger] refs.drop_last()[k],
                    root_name,
                );
            assert(refs[k] == refs.drop_last()[k]);
        } else {
            assert(refs[refs.len() - 1] == refs.last());
        }
    }
}

/// A completion has at most [`COMPLETION_LIMIT`] items, and sorting them by their
/// sort texts keeps their order.
pub proof fn law_completion_is_bounded_and_sorted(
    c: Completion,
    entries: Seq<Entry>,
    s: Seq<char>,
    q: QueryView,
    pos: Position,
)
    requires
        completes(c, entries, s, q, pos),
    ensures
        c.items@.len() <= COMPLETION_LIMIT,
        forall|j: int, k: int|
            0 <= j < k < c.items@.len() ==> text_less(
                (#[trigger] c.items@[j]).sort_text@,
                (#[trigger] c.items@[k]).sort_text@,
            ),
{
    let found = choose|found: Seq<&Entry>|
        {
            &&& #[trigger] searched(entries, q.text, COMPLETION_LIMIT, found)
            &&& c.items@.len() == found.len()
            &&& forall|k: int| 0 <= k < found.len() ==> offers(#[trigger] c.items@[k], *found[k], k)
        };
    law_search_finds_entries(entries, q.text, COMPLETION_LIMIT, found);
    assert forall|j: int, k: int| 0 <= j < k < c.items@.len() implies text_less(
        (#[trigger] c.items@[j]).sort_text@,
        (#[trigger] c.items@[k]).sort_text@,
    ) by {
        assert(offers(c.items@[j], *found[j], j));
        assert(offers(c.items@[k], *found[k], k));
        reveal_with_fuel(decimal, 3);
        law_padded_keeps_order(j as nat, k as nat, SORT_DIGITS as nat);
    }
}

/// A completion is determined by the text, the position and the index.
pub proof fn law_completion_is_determined(
    c: Completion,
    d: Completion,
    entries: Seq<Entry>,
    s: Seq<char>,
    q: QueryView,
    pos: Position,
)
    requires
        completes(c, entries, s, q, pos),
        completes(d, entries, s, q, pos),
    ensures
        c.range == d.range,
        c.items@.len() == d.items@.len(),
        forall|k: int|
            0 <= k < c.items@.len() ==> (#[trigger] c.items@[k]).insert@ == d.items@[k].insert@
                && c.items@[k].is_dir == d.items@[k].is_dir && c.items@[k].sort_text@
                == d.items@[k].sort_text@,
{
    let x = choose|found: Seq<&Entry>|
        {
            &&& #[trigger] searched(entries, q.text, COMPLETION_LIMIT, found)
            &&& c.items@.len() == found.len()
            &&& forall|k: int| 0 <= k < found.len() ==> offers(#[trigger] c.items@[k], *found[k], k)
        };
    let y = choose|found: Seq<&Entry>|
        {
            &&& #[trigger] searched(entries, q.text, COMPLETION_LIMIT, found)
            &&& d.items@.len() == found.len()
            &&& forall|k: int| 0 <= k < found.len() ==> offers(#[trigger] d.items@[k], *found[k], k)
        };
    law_search_is_determined(entries, q.text, COMPLETION_LIMIT, x, y);
    assert forall|k: int| 0 <= k < c.items@.len() implies (#[trigger] c.items@[k]).insert@
        == d.items@[k].insert@ && c.items@[k].is_dir == d.items@[k].is_dir
        && c.items@[k].sort_text@ == d.items@[k].sort_text@ by {
        assert(offers(c.items@[k], *x[k], k));
        assert(offers(d.items@[k], *y[k], k));
    }
}

/// What an accepted item replaces is the query: the range starts right after the `@`,
/// and the text from there to the cursor is what was typed.
pub proof fn law_completion_replaces_query(
    c: Completion,
    entries: Seq<Entry>,
    s: Seq<char>,
    q: QueryView,
    pos: Position,
)
    requires
        query_at_pos(s, pos) == Some(q),
        completes(c, entries, s, q, pos),
    ensures
        c.range.end == pos,
        index_of(s, c.range.start) is Some,
        ({
            let from = index_of(s, c.range.start)->0;
            let to = index_of(s, pos)->0;
            &&& 0 < from <= to <= s.len()
            &&& s[from - 1] == '@'
            &&& s.subrange(from, to) == q.text
        }),
{
    let n = index_of(s, pos)->0;
    lemma_index_of(s, pos);
    lemma_query_at(s, n);
    lemma_last_position(s.take(n), '@');
    let at = last_position(s.take(n), '@')->0;
    assert(s[at] == '@');
    lemma_byte_offset_step(s, at);
    lemma_offset_is_boundary(s, at + 1);
    lemma_byte_offset_ends(s);
    lemma_byte_offset_mono(s, at + 1, s.len() as int);
    assert(clamped_index(s, q.at + 1) == at + 1) by {
        if q.at + 1 >= encode_utf8(s).len() {
            lemma_byte_offset_injective(s, at + 1, s.len() as int);
        }
    }
    let typed = s.subrange(at + 1, n);
    assert forall|k: int| at + 1 <= k < n implies #[trigger] s[k] != '\n' by {
        assert(typed[k - at - 1] == s[k]);
        assert(!terminator(typed[k - at - 1]));
    }
    lemma_same_line(s, at + 1, n);
    law_position_round_trip(s, at + 1);
}

} // verus!
