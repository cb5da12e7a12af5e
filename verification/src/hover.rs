//! Markdown hover body for a path: file preview or directory listing.

use crate::chars::decode;
use crate::format::{
    decimal, decimal_text, fence, fence_for, join_first, join_lines, split_lines, text_lines, texts,
    without_cr,
};
use crate::partial::{decode_partial, law_cut_text_reads_back, partial_text};
use crate::path::{extension, extension_of, join, joined};
use crate::rank::{
    at_most, bytes_before, bytes_less, first_ranked, indices, is_ranking, is_weak_order,
    law_ranking_is_unique, lemma_bytes_weak_order, lemma_ranked, lemma_ranking_len, precedes, Order,
};
use crate::refs::PathRef;
use crate::seqs::{first_position, lemma_first_position};
use crate::stats::TextStats;
use crate::text::newlines;
use vstd::prelude::*;
use vstd::string::*;
use vstd::utf8::*;

verus! {

/// Number of lines shown in the hover preview.
pub const HOVER_PREVIEW_LINES: usize = 30;

/// Maximum bytes read for a hover preview (avoid slurping huge files).
pub const HOVER_READ_LIMIT: usize = 65536;

/// A name in a directory.
#[derive(Debug)]
pub struct Listed {
    pub name: String,
    pub is_dir: bool,
}

/// What is found at a path.
#[derive(Debug)]
pub enum Found {
    /// Nothing.
    Missing,
    /// A directory that cannot be read, with the error.
    UnreadableDir(String),
    /// A directory, with the names in it.
    Dir(Vec<Listed>),
    /// A file that cannot be read, with the error.
    UnreadableFile(String),
    /// A file that does not start with text, with its size in bytes.
    Binary(u64),
    /// A text file, with what was read of it and the counts of all of it.
    Text(Head, TextStats),
}

/// The text at the start of a file.
#[derive(Debug)]
pub struct Head {
    pub text: String,
    /// Whether as much as [`HOVER_READ_LIMIT`] was read.
    pub full: bool,
}

/// The text at the start of a file, if it is text: valid UTF-8, of which the last
/// character may be cut if the file goes on.
pub open spec fn head_text(head: Seq<u8>, more: bool) -> Option<Seq<char>> {
    if more {
        partial_text(head)
    } else if valid_utf8(head) {
        Some(decode_utf8(head))
    } else {
        None
    }
}

/// A name as it is shown: a directory ends with a `/`.
pub open spec fn shown_name(l: Listed) -> Seq<char> {
    if l.is_dir {
        l.name@ + "/"@
    } else {
        l.name@
    }
}

/// The names as they are shown.
pub open spec fn shown_names(items: Seq<Listed>) -> Seq<Seq<char>> {
    items.map_values(|l: Listed| shown_name(l))
}

/// The order of names: that of their bytes.
pub open spec fn by_name(names: Seq<Seq<char>>) -> spec_fn(int, int) -> bool {
    |i: int, j: int| bytes_less(encode_utf8(names[i]), encode_utf8(names[j]))
}

/// `n` marks that select each item.
pub open spec fn all_of(n: nat) -> Seq<bool> {
    Seq::new(n, |i: int| true)
}

/// Whether `order` sorts the names.
pub open spec fn sorts(names: Seq<Seq<char>>, order: Seq<int>) -> bool {
    is_ranking(by_name(names), names.len() as int, all_of(names.len()), order)
}

/// The names in the given order.
pub open spec fn in_order(names: Seq<Seq<char>>, order: Seq<int>) -> Seq<Seq<char>> {
    order.map_values(|i: int| names[i])
}

/// The first items of a list, as many as a preview has lines.
pub open spec fn previewed(lines: Seq<Seq<char>>) -> Seq<Seq<char>> {
    lines.take(at_most(HOVER_PREVIEW_LINES, lines.len()))
}

/// The hover body of a directory with these names, in this order.
pub open spec fn listing_text(path: Seq<char>, names: Seq<Seq<char>>) -> Seq<char> {
    let shown = previewed(names);
    let body = "**"@ + path + "/** ("@ + decimal(names.len()) + " entries)\n```\n"@ + join_lines(
        shown,
    );
    if names.len() > shown.len() {
        body + "\n… "@ + decimal((names.len() - shown.len()) as nat) + " more"@ + "\n```"@
    } else {
        body + "\n```"@
    }
}

/// The language of a fenced block for a file: the extension of its name.
pub open spec fn language(path: Seq<u8>) -> Seq<char> {
    match extension_of(path) {
        Some(e) => if valid_utf8(e) {
            decode_utf8(e)
        } else {
            Seq::empty()
        },
        None => Seq::empty(),
    }
}

/// Whether a preview shows less than the file: there are more lines, or the file was
/// not read to its end.
pub open spec fn cut(head: Seq<char>, full: bool) -> bool {
    text_lines(head).len() > HOVER_PREVIEW_LINES || full
}

/// The hover body of a text file that starts with `head`.
pub open spec fn preview_text(
    path: Seq<char>,
    lang: Seq<char>,
    head: Seq<char>,
    full: bool,
    stats: TextStats,
) -> Seq<char> {
    let shown = previewed(text_lines(head));
    let preview = join_lines(shown);
    let title = "**"@ + path + "** ("@ + decimal(stats.lines as nat) + " lines, "@ + decimal(
        stats.chars as nat,
    ) + " chars)"@;
    let title = if cut(head, full) {
        title + " — first "@ + decimal(shown.len()) + " lines"@
    } else {
        title
    };
    title + "\n"@ + fence(preview) + lang + "\n"@ + preview + "\n"@ + fence(preview)
}

/// Whether `md` is the hover body for `path` under `root`.
pub open spec fn is_hover(
    root: Seq<u8>,
    root_name: Seq<char>,
    path: Seq<char>,
    found: Found,
    md: Seq<char>,
) -> bool {
    match found {
        Found::Missing => md == "`"@ + path + "` — **not found** under `"@ + root_name + "`"@,
        Found::UnreadableDir(err) => md == "`"@ + path + "/` — cannot read: "@ + err@,
        Found::Dir(items) => exists|order: Seq<int>|
            #[trigger] sorts(shown_names(items@), order) && md == listing_text(
                path,
                in_order(shown_names(items@), order),
            ),
        Found::UnreadableFile(err) => md == "`"@ + path + "` — cannot read: "@ + err@,
        Found::Binary(size) => md == "**"@ + path + "** — binary file, "@ + decimal(size as nat)
            + " bytes"@,
        Found::Text(head, stats) => md == preview_text(
            path,
            language(joined(root, encode_utf8(path))),
            head.text@,
            head.full,
            stats,
        ),
    }
}

/// The text in `bytes`, if they are valid UTF-8.
fn whole_text(bytes: &[u8]) -> (text: Option<String>)
    ensures
        match text {
            Some(t) => valid_utf8(bytes@) && t@ == decode_utf8(bytes@),
            None => !valid_utf8(bytes@),
        },
{
    match decode(bytes) {
        Some(t) => {
            proof {
                encode_utf8_decode_utf8(t@);
            }
            Some(t.to_owned())
        },
        None => None,
    }
}

/// The text at the start of a file, given the bytes that were read of it and whether
/// the file goes on behind them; `None` if the file is binary.
pub fn as_text(head: &[u8], more: bool) -> (r: Option<Head>)
    ensures
        match r {
            Some(h) => head_text(head@, more) == Some(h.text@) && h.full == (head@.len()
                >= HOVER_READ_LIMIT),
            None => head_text(head@, more) is None,
        },
{
    let text = if more {
        decode_partial(head)
    } else {
        whole_text(head)
    };
    match text {
        Some(text) => Some(Head { text, full: head.len() >= HOVER_READ_LIMIT }),
        None => None,
    }
}

/// Ranks names by [`by_name`].
struct ByName<'a> {
    names: &'a Vec<String>,
}

impl<'a> Order for ByName<'a> {
    closed spec fn size(&self) -> int {
        self.names@.len() as int
    }

    closed spec fn less(&self) -> spec_fn(int, int) -> bool {
        by_name(texts(self.names@))
    }

    proof fn lemma_weak_order(&self, i: int, j: int, k: int) {
        lemma_by_name(texts(self.names@), i, j, k);
    }

    fn before(&self, i: usize, j: usize) -> (b: bool) {
        assert(texts(self.names@)[i as int] == self.names@[i as int]@);
        assert(texts(self.names@)[j as int] == self.names@[j as int]@);
        bytes_before(self.names[i].as_str().as_bytes(), self.names[j].as_str().as_bytes())
    }
}

/// The order of names is a weak order.
proof fn lemma_by_name(names: Seq<Seq<char>>, i: int, j: int, k: int)
    ensures
        !(by_name(names)(i, j) && by_name(names)(j, i)),
        by_name(names)(i, k) ==> by_name(names)(i, j) || by_name(names)(j, k),
{
    lemma_bytes_weak_order(encode_utf8(names[i]), encode_utf8(names[j]), encode_utf8(names[k]));
}

/// An order that sorts the names lists each of them once.
pub proof fn lemma_sorts(names: Seq<Seq<char>>, order: Seq<int>)
    requires
        sorts(names, order),
    ensures
        is_weak_order(by_name(names), names.len() as int),
        order.len() == names.len(),
{
    let less = by_name(names);
    assert forall|i: int, j: int|
        0 <= i < names.len() && 0 <= j < names.len() implies !(#[trigger] less(i, j) && less(
        j,
        i,
    )) by {
        lemma_by_name(names, i, j, j);
    }
    assert forall|i: int, j: int, k: int|
        0 <= i < names.len() && 0 <= j < names.len() && 0 <= k < names.len() && #[trigger] less(
            i,
            k,
        ) implies #[trigger] less(i, j) || less(j, k) by {
        lemma_by_name(names, i, j, k);
    }
    lemma_ranking_len(less, names.len() as int, all_of(names.len()), order);
}

/// The hover body of a directory.
fn listing(path: &str, items: &Vec<Listed>) -> (md: String)
    ensures
        exists|order: Seq<int>|
            #[trigger] sorts(shown_names(items@), order) && md@ == listing_text(
                path@,
                in_order(shown_names(items@), order),
            ),
{
    let ghost all = shown_names(items@);
    let mut names: Vec<String> = Vec::new();
    let mut keep: Vec<bool> = Vec::new();
    let mut i: usize = 0;
    while i < items.len()
        invariant
            all == shown_names(items@),
            0 <= i <= items@.len(),
            texts(names@) == all.take(i as int),
            keep@ == all_of(i as nat),
        decreases items.len() - i,
    {
        let mut name = items[i].name.as_str().to_owned();
        if items[i].is_dir {
            name.append("/");
        }
        let ghost before = names@;
        names.push(name);
        keep.push(true);
        assert(texts(names@) =~= texts(before).push(shown_name(items@[i as int])));
        assert(texts(names@) =~= all.take(i + 1));
        assert(keep@ =~= all_of((i + 1) as nat));
        i = i + 1;
    }
    assert(texts(names@) =~= all);
    let by = ByName { names: &names };
    let best = first_ranked(&by, &keep, HOVER_PREVIEW_LINES);
    let ghost order = choose|order: Seq<int>|
        #[trigger] is_ranking(by.less(), keep@.len() as int, keep@, order) && indices(best@)
            == order.take(at_most(HOVER_PREVIEW_LINES, order.len()));
    proof {
        assert(sorts(all, order));
        lemma_sorts(all, order);
        lemma_ranked(by, keep@, order, best@, HOVER_PREVIEW_LINES);
    }
    let ghost sorted = in_order(all, order);
    let mut shown: Vec<String> = Vec::new();
    let mut k: usize = 0;
    while k < best.len()
        invariant
            0 <= k <= best@.len(),
            texts(names@) == all,
            best@.len() <= order.len(),
            sorted == in_order(all, order),
            texts(shown@) == sorted.take(k as int),
            forall|j: int|
                0 <= j < best@.len() ==> #[trigger] best@[j] == order[j] && best@[j] < names@.len(),
        decreases best.len() - k,
    {
        let name = names[best[k]].as_str().to_owned();
        let ghost before = shown@;
        shown.push(name);
        proof {
            assert(texts(names@)[best@[k as int] as int] == name@);
            assert(texts(shown@) =~= texts(before).push(name@));
            assert(texts(shown@) =~= sorted.take(k + 1));
        }
        k = k + 1;
    }
    assert(texts(shown@).take(shown@.len() as int) =~= previewed(sorted));
    let list = join_first(&shown, shown.len());
    let mut md = "**".to_owned();
    md.append(path);
    md.append("/** (");
    md.append(decimal_text(names.len() as u64).as_str());
    md.append(" entries)\n```\n");
    md.append(list.as_str());
    if names.len() > shown.len() {
        md.append("\n… ");
        md.append(decimal_text((names.len() - shown.len()) as u64).as_str());
        md.append(" more");
    }
    md.append("\n```");
    md
}

/// The language of a fenced block for a file.
fn language_of(path: &[u8]) -> (lang: String)
    ensures
        lang@ == language(path@),
{
    match extension(path) {
        Some(e) => match whole_text(e.as_slice()) {
            Some(lang) => lang,
            None => String::new(),
        },
        None => String::new(),
    }
}

/// The hover body of a text file.
fn preview(path: &str, lang: &str, head: &Head, stats: TextStats) -> (md: String)
    ensures
        md@ == preview_text(path@, lang@, head.text@, head.full, stats),
{
    let lines = split_lines(head.text.as_str());
    let shown: usize = if lines.len() < HOVER_PREVIEW_LINES {
        lines.len()
    } else {
        HOVER_PREVIEW_LINES
    };
    assert(texts(lines@).len() == lines@.len());
    let preview = join_first(&lines, shown);
    let truncated = lines.len() > HOVER_PREVIEW_LINES || head.full;
    // A fence longer than any backtick run in the preview, so content containing
    // ``` does not break the block.
    let fence = fence_for(preview.as_str());
    let mut md = "**".to_owned();
    md.append(path);
    md.append("** (");
    md.append(decimal_text(stats.lines as u64).as_str());
    md.append(" lines, ");
    md.append(decimal_text(stats.chars as u64).as_str());
    md.append(" chars)");
    if truncated {
        md.append(" — first ");
        md.append(decimal_text(shown as u64).as_str());
        md.append(" lines");
    }
    md.append("\n");
    md.append(fence.as_str());
    md.append(lang);
    md.append("\n");
    md.append(preview.as_str());
    md.append("\n");
    md.append(fence.as_str());
    md
}

/// Markdown hover body for a path (file preview or directory listing).
pub fn hover_markdown(root: &[u8], root_name: &str, r: &PathRef, found: &Found) -> (md: String)
    ensures
        is_hover(root@, root_name@, r.path@, *found, md@),
{
    let path = r.path.as_str();
    let mut md = "`".to_owned();
    md.append(path);
    match found {
        Found::Missing => {
            md.append("` — **not found** under `");
            md.append(root_name);
            md.append("`");
            md
        },
        Found::UnreadableDir(err) => {
            md.append("/` — cannot read: ");
            md.append(err.as_str());
            md
        },
        Found::Dir(items) => listing(path, items),
        Found::UnreadableFile(err) => {
            md.append("` — cannot read: ");
            md.append(err.as_str());
            md
        },
        Found::Binary(size) => {
            let mut md = "**".to_owned();
            md.append(path);
            md.append("** — binary file, ");
            md.append(decimal_text(*size).as_str());
            md.append(" bytes");
            md
        },
        Found::Text(head, stats) => {
            let abs = join(root, path.as_bytes());
            let lang = language_of(abs.as_slice());
            preview(path, lang.as_str(), head, *stats)
        },
    }
}

/// The hover body is determined by what is found.
pub proof fn law_hover_is_determined(
    root: Seq<u8>,
    root_name: Seq<char>,
    path: Seq<char>,
    found: Found,
    x: Seq<char>,
    y: Seq<char>,
)
    requires
        is_hover(root, root_name, path, found, x),
        is_hover(root, root_name, path, found, y),
    ensures
        x == y,
{
    if let Found::Dir(items) = found {
        let names = shown_names(items@);
        let a = choose|order: Seq<int>|
            #[trigger] sorts(names, order) && x == listing_text(path, in_order(names, order));
        let b = choose|order: Seq<int>|
            #[trigger] sorts(names, order) && y == listing_text(path, in_order(names, order));
        lemma_sorts(names, a);
        law_ranking_is_unique(
            by_name(names),
            names.len() as int,
            all_of(names.len()),
            a,
            b,
        );
    }
}

/// A directory listing is sorted by the names' bytes and holds every name.
pub proof fn law_listing_is_sorted(names: Seq<Seq<char>>, order: Seq<int>, a: int, b: int)
    requires
        sorts(names, order),
        0 <= a < b < names.len(),
    ensures
        in_order(names, order).len() == names.len(),
        !bytes_less(encode_utf8(in_order(names, order)[b]), encode_utf8(in_order(names, order)[a])),
        forall|i: int|
            0 <= i < names.len() ==> in_order(names, order).contains(#[trigger] names[i]),
{
    lemma_sorts(names, order);
    let sorted = in_order(names, order);
    assert(precedes(by_name(names), order[a], order[b]));
    lemma_by_name(names, order[a], order[b], order[b]);
    assert forall|i: int| 0 <= i < names.len() implies sorted.contains(#[trigger] names[i]) by {
        assert(all_of(names.len())[i]);
        assert(order.contains(i));
        let k = choose|k: int| 0 <= k < order.len() && order[k] == i;
        assert(sorted[k] == names[i]);
    }
}

/// A preview that does not say that it was cut shows all lines.
pub proof fn law_preview_shows_all_unless_cut(head: Seq<char>, full: bool)
    requires
        !cut(head, full),
    ensures
        previewed(text_lines(head)) == text_lines(head),
{
    assert(previewed(text_lines(head)) =~= text_lines(head));
}

/// A UTF-8 file that is longer than the read limit is text, wherever the limit cuts
/// it; and if its first lines, as many as a preview has, end before the limit, they are
/// what the preview shows.
pub proof fn law_long_text_file_is_previewed(s: Seq<char>)
    requires
        encode_utf8(s).len() > HOVER_READ_LIMIT,
    ensures
        head_text(encode_utf8(s).take(HOVER_READ_LIMIT as int), true) is Some,
        ({
            let head = head_text(encode_utf8(s).take(HOVER_READ_LIMIT as int), true)->0;
            &&& head.is_prefix_of(s)
            &&& newlines(head) >= HOVER_PREVIEW_LINES ==> previewed(text_lines(head)) == previewed(
                text_lines(s),
            )
        }),
{
    law_cut_text_reads_back(s, HOVER_READ_LIMIT as int);
    let head = head_text(encode_utf8(s).take(HOVER_READ_LIMIT as int), true)->0;
    assert(head == s.take(head.len() as int));
    if newlines(head) >= HOVER_PREVIEW_LINES {
        lemma_first_lines(s, head.len() as int, HOVER_PREVIEW_LINES as int);
    }
}

/// A file that was read to its end is text exactly if all of it is valid UTF-8.
pub proof fn law_whole_file_is_text_or_binary(contents: Seq<u8>)
    ensures
        head_text(contents, false) is Some <==> valid_utf8(contents),
        valid_utf8(contents) ==> encode_utf8(head_text(contents, false)->0) == contents,
{
    if valid_utf8(contents) {
        decode_utf8_encode_utf8(contents);
    }
}

/// The line feeds of two texts add up.
proof fn lemma_newlines_concat(a: Seq<char>, b: Seq<char>)
    ensures
        newlines(a + b) == newlines(a) + newlines(b),
    decreases b.len(),
{
    if b.len() == 0 {
        assert(a + b =~= a);
    } else {
        lemma_newlines_concat(a, b.drop_last());
        assert((a + b).drop_last() =~= a + b.drop_last());
    }
}

/// A part without line feeds has none.
proof fn lemma_no_newlines(a: Seq<char>)
    requires
        forall|i: int| 0 <= i < a.len() ==> #[trigger] a[i] != '\n',
    ensures
        newlines(a) == 0,
    decreases a.len(),
{
    if a.len() > 0 {
        lemma_no_newlines(a.drop_last());
    }
}

/// The first `m` lines of a text end in each prefix with `m` line feeds.
proof fn lemma_first_lines(s: Seq<char>, n: int, m: int)
    requires
        0 <= n <= s.len(),
        0 <= m <= newlines(s.take(n)),
    ensures
        text_lines(s.take(n)).len() >= m,
        text_lines(s).len() >= m,
        text_lines(s.take(n)).take(m) == text_lines(s).take(m),
    decreases m,
{
    let head = s.take(n);
    if m == 0 {
        assert(text_lines(head).take(0) =~= text_lines(s).take(0));
    } else {
        lemma_first_position(head, '\n');
        lemma_first_position(s, '\n');
        let k = first_position(head, '\n');
        if k == head.len() {
            lemma_no_newlines(head);
        }
        let j = first_position(s, '\n');
        assert(s[k] == head[k]);
        assert(j < k ==> head[j] == s[j]);
        assert(j == k);
        let (line, rest) = (head.take(k), s.skip(k + 1));
        assert(s.take(k) =~= line);
        assert(head.skip(k + 1) =~= rest.take(n - k - 1));
        assert forall|i: int| 0 <= i < line.len() implies #[trigger] line[i] != '\n' by {
            assert(line[i] == head[i]);
        }
        lemma_no_newlines(line);
        assert(head =~= (line + seq!['\n']) + head.skip(k + 1));
        lemma_newlines_concat(line + seq!['\n'], head.skip(k + 1));
        lemma_newlines_concat(line, seq!['\n']);
        assert(newlines(seq!['\n']) == 1) by {
            reveal_with_fuel(newlines, 2);
            assert(seq!['\n'].drop_last() =~= Seq::<char>::empty());
        }
        lemma_first_lines(rest, n - k - 1, m - 1);
        let first = seq![without_cr(line)];
        assert(text_lines(head) =~= first + text_lines(head.skip(k + 1)));
        assert(text_lines(s) =~= first + text_lines(rest));
        assert(text_lines(head).take(m) =~= first + text_lines(head.skip(k + 1)).take(m - 1));
        assert(text_lines(s).take(m) =~= first + text_lines(rest).take(m - 1));
    }
}

} // verus!
