//! Answers to requests: what they say of a text, a position and an index.

use crate::chars::{lemma_byte_offset_step, lemma_utf8_width};
use crate::format::{decimal, padded};
use crate::index::{searched, Entry};
use crate::laws::positions::law_what_an_offset_means;
use crate::refs::{first_spanning, query_before, refs_in, PathRefView, QueryView};
use crate::server::{
    completes, diagnosed, diagnostic_views, index_message, missing, offers, open_text, query_at_pos,
    ref_at_pos, ref_range, target_line, Completion, CompletionItem, Diagnostic, DiagnosticView,
    COMPLETION_LIMIT, SORT_DIGITS,
};
use crate::text::{index_of, position_of, Document, Position};
use vstd::prelude::*;
use vstd::string::*;
use vstd::utf8::*;

verus! {

/// A definition points to the line that the reference names, counted from 0; to the first
/// line if it names line 0 or none.
pub proof fn law_definition_points_to_the_named_line(n: u32)
    ensures
        n >= 1 ==> target_line(Some(n)) + 1 == n,
        target_line(Some(0)) == 0,
        target_line(None) == 0,
{
}

/// An open document has its text, and a document that is not open has none.
pub proof fn law_text_of_a_document(docs: Map<Seq<char>, Document>, uri: Seq<char>)
    ensures
        docs.dom().contains(uri) ==> open_text(docs, uri) == Some(docs[uri]@),
        !docs.dom().contains(uri) ==> open_text(docs, uri) is None,
{
}

/// The range of a reference goes from its `@` to right behind its last character.
pub proof fn law_range_of_a_reference(s: Seq<char>, r: PathRefView, i: int, j: int)
    requires
        0 <= i <= j <= s.len(),
        r.start == encode_utf8(s.take(i)).len(),
        r.end == encode_utf8(s.take(j)).len(),
    ensures
        ref_range(s, r).start == position_of(s, i),
        ref_range(s, r).end == position_of(s, j),
{
    law_what_an_offset_means(s, i, 0);
    law_what_an_offset_means(s, j, 0);
}

/// A diagnostic has the range of its reference, and says that the path does not exist
/// under the root.
pub proof fn law_what_a_diagnostic_says(s: Seq<char>, r: PathRefView, root_name: Seq<char>)
    ensures
        missing(s, r, root_name).range == ref_range(s, r),
        missing(s, r, root_name).message == seq!['`'] + r.path + "` does not exist under "@ + root_name,
{
    reveal_strlit("`");
    assert("`"@ =~= seq!['`']);
}

/// References are diagnosed one after the other, each if its path does not exist, and not
/// if it does.
pub proof fn law_which_references_are_diagnosed(
    s: Seq<char>,
    refs: Seq<PathRefView>,
    r: PathRefView,
    marks: Seq<bool>,
    root_name: Seq<char>,
)
    ensures
        diagnosed(s, Seq::<PathRefView>::empty(), marks, root_name) == Seq::<DiagnosticView>::empty(),
        marks[refs.len() as int] ==> diagnosed(s, refs.push(r), marks, root_name) == diagnosed(
            s,
            refs,
            marks,
            root_name,
        ),
        !marks[refs.len() as int] ==> diagnosed(s, refs.push(r), marks, root_name) == diagnosed(
            s,
            refs,
            marks,
            root_name,
        ).push(missing(s, r, root_name)),
{
    assert(refs.push(r).drop_last() =~= refs);
}

/// What a diagnostic says is what its fields say.
pub proof fn law_what_diagnostics_say(d: Diagnostic, v: Seq<Diagnostic>, k: int)
    ensures
        d@.range == d.range,
        d@.message == d.message@,
        diagnostic_views(v).len() == v.len(),
        0 <= k < v.len() ==> diagnostic_views(v)[k] == v[k]@,
{
}

/// At a position that means a place in the text, the reference is the one that spans that
/// place, and the query is the one that ends there. At any other position there is none.
pub proof fn law_what_is_at_a_position(s: Seq<char>, pos: Position)
    ensures
        match index_of(s, pos) {
            Some(i) => ref_at_pos(s, pos) == first_spanning(
                refs_in(s),
                encode_utf8(s.take(i)).len() as int,
            ) && query_at_pos(s, pos) == query_before(s, i),
            None => ref_at_pos(s, pos) is None && query_at_pos(s, pos) is None,
        },
{
}

/// An item inserts the path of its entry, with a slash behind it if the entry is a
/// directory, and is sorted by its place, in five digits.
pub proof fn law_what_an_item_offers(item: CompletionItem, e: Entry, k: int)
    ensures
        offers(item, e, k) ==> item.is_dir == e.is_dir && item.sort_text@ == padded(k as nat, 5),
        offers(item, e, k) && e.is_dir ==> item.insert@ == e.rel@ + seq!['/'],
        offers(item, e, k) && !e.is_dir ==> item.insert@ == e.rel@,
        SORT_DIGITS == 5,
{
    reveal_strlit("/");
    assert("/"@ =~= seq!['/']);
}

/// A completion replaces the text from right behind the `@` to the cursor, and offers what
/// a search for that text finds, at most 50 entries, each in its place.
pub proof fn law_what_a_completion_offers(
    c: Completion,
    entries: Seq<Entry>,
    s: Seq<char>,
    at: int,
    text: Seq<char>,
    pos: Position,
)
    requires
        0 <= at < s.len(),
        s[at] == '@',
        completes(
            c,
            entries,
            s,
            QueryView { at: encode_utf8(s.take(at)).len() as int, text },
            pos,
        ),
    ensures
        c.range.start == position_of(s, at + 1),
        c.range.end == pos,
        exists|found: Seq<&Entry>|
            {
                &&& #[trigger] searched(entries, text, 50, found)
                &&& c.items@.len() == found.len()
                &&& forall|k: int|
                    0 <= k < found.len() ==> offers(#[trigger] c.items@[k], *found[k], k)
            },
        COMPLETION_LIMIT == 50,
{
    lemma_byte_offset_step(s, at);
    lemma_utf8_width('@');
    law_what_an_offset_means(s, at + 1, 0);
}

/// The message after indexing tells the number of entries and the root, and whether the
/// walk was cut.
pub proof fn law_what_indexing_tells(n: nat, root_name: Seq<char>)
    ensures
        index_message(n, root_name, false) == "promptls: indexed "@ + decimal(n) + " entries under "@
            + root_name,
        index_message(n, root_name, true) == "promptls: indexed "@ + decimal(n) + " entries under "@
            + root_name + " (truncated; raise --max-entries)"@,
{
}

} // verus!
