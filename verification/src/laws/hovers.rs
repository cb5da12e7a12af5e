//! Hover bodies: what they say of what is found at a path.

use crate::chars::{
    lemma_byte_offset_ends, lemma_byte_offset_mono, lemma_byte_offset_step, lemma_encode_concat,
};
use crate::format::{decimal, fence, join_lines, text_lines};
use crate::hover::{
    by_name, head_text, in_order, is_hover, language, lemma_sorts, listing_text, previewed,
    shown_name, shown_names, sorts, Found, Head, Listed, HOVER_PREVIEW_LINES, HOVER_READ_LIMIT,
};
use crate::partial::{cut_inside, is_start_of, law_cut_text_reads_back, partial_text, starts_char};
use crate::path::{extension_of, joined};
use crate::rank::{bytes_less, lemma_bytes_weak_order, precedes};
use crate::stats::TextStats;
use vstd::prelude::*;
use vstd::string::*;
use vstd::utf8::*;

verus! {

/// What is said of a path where nothing is found, or nothing can be read, or no text.
pub proof fn law_hover_without_contents(
    root: Seq<u8>,
    root_name: Seq<char>,
    path: Seq<char>,
    err: String,
    size: u64,
    md: Seq<char>,
)
    ensures
        is_hover(root, root_name, path, Found::Missing, md) <==> md == seq!['`'] + path
            + "` — **not found** under `"@ + root_name + seq!['`'],
        is_hover(root, root_name, path, Found::UnreadableDir(err), md) <==> md == seq!['`'] + path
            + "/` — cannot read: "@ + err@,
        is_hover(root, root_name, path, Found::UnreadableFile(err), md) <==> md == seq!['`'] + path
            + "` — cannot read: "@ + err@,
        is_hover(root, root_name, path, Found::Binary(size), md) <==> md == seq!['*', '*'] + path
            + "** — binary file, "@ + decimal(size as nat) + " bytes"@,
{
    reveal_strlit("`");
    reveal_strlit("**");
    assert("`"@ =~= seq!['`']);
    assert("**"@ =~= seq!['*', '*']);
}

/// The number of the first of `n` lines or names that are shown: all of them up to 30.
pub open spec fn shown_of(n: nat) -> int {
    if n <= 30 {
        n as int
    } else {
        30
    }
}

/// A directory is shown with the number of its entries and the first of them in the order
/// of their bytes, one to a line: each entry once, a directory with a slash behind its
/// name. If some are left out, their number is told.
pub proof fn law_hover_of_a_directory(
    root: Seq<u8>,
    root_name: Seq<char>,
    path: Seq<char>,
    items: Vec<Listed>,
    md: Seq<char>,
)
    requires
        is_hover(root, root_name, path, Found::Dir(items), md),
    ensures
        exists|at: Seq<int>, names: Seq<Seq<char>>|
            {
                let n = items@.len();
                let shown = names.take(shown_of(n));
                &&& #[trigger] at.len() == n && #[trigger] names.len() == n
                &&& at.no_duplicates()
                &&& forall|k: int|
                    0 <= k < n ==> 0 <= #[trigger] at[k] < n && names[k] == (
                    if items@[at[k]].is_dir {
                        items@[at[k]].name@ + seq!['/']
                    } else {
                        items@[at[k]].name@
                    })
                &&& forall|j: int, k: int|
                    0 <= j < k < n ==> !bytes_less(
                        encode_utf8(#[trigger] names[k]),
                        encode_utf8(#[trigger] names[j]),
                    )
                &&& md == "**"@ + path + "/** ("@ + decimal(n) + " entries)\n```\n"@ + join_lines(shown)
                    + (if n > 30 {
                    "\n… "@ + decimal((n - 30) as nat) + " more\n```"@
                } else {
                    "\n```"@
                })
            },
{
    let all = shown_names(items@);
    let order = choose|order: Seq<int>|
        #[trigger] sorts(all, order) && md == listing_text(path, in_order(all, order));
    let names = in_order(all, order);
    let n = items@.len();
    lemma_sorts(all, order);
    let less = by_name(all);
    assert forall|k: int| 0 <= k < n implies 0 <= #[trigger] order[k] < n && names[k] == (
    if items@[order[k]].is_dir {
        items@[order[k]].name@ + seq!['/']
    } else {
        items@[order[k]].name@
    }) by {
        assert(order.contains(order[k]));
        assert(names[k] == all[order[k]]);
        law_names_as_shown(items@[order[k]]);
    }
    assert forall|j: int, k: int| 0 <= j < k < n implies !bytes_less(
        encode_utf8(#[trigger] names[k]),
        encode_utf8(#[trigger] names[j]),
    ) by {
        assert(names[j] == all[order[j]] && names[k] == all[order[k]]);
        assert(precedes(less, order[j], order[k]));
        lemma_bytes_weak_order(
            encode_utf8(names[j]),
            encode_utf8(names[k]),
            encode_utf8(names[j]),
        );
    }
    assert(order.no_duplicates()) by {
        assert forall|j: int, k: int| 0 <= j < k < order.len() implies order[j] != order[k] by {
            assert(precedes(less, order[j], order[k]));
            let name = encode_utf8(all[order[j]]);
            lemma_bytes_weak_order(name, name, name);
        }
    }
    let shown = names.take(shown_of(n));
    assert(previewed(names) == shown);
    assert(shown.len() == shown_of(n));
    reveal_strlit(" more");
    reveal_strlit("\n```");
    reveal_strlit(" more\n```");
    assert(" more\n```"@ =~= " more"@ + "\n```"@);
    assert(md =~= "**"@ + path + "/** ("@ + decimal(n) + " entries)\n```\n"@ + join_lines(shown) + (
    if n > 30 {
        "\n… "@ + decimal((n - 30) as nat) + " more\n```"@
    } else {
        "\n```"@
    }));
    assert(order.len() == n && names.len() == n);
}

/// A directory has a slash behind its name, and a file does not.
pub proof fn law_names_as_shown(l: Listed)
    ensures
        shown_name(l) == (if l.is_dir {
            l.name@ + seq!['/']
        } else {
            l.name@
        }),
{
    reveal_strlit("/");
    assert("/"@ =~= seq!['/']);
}

/// A text file is shown with its counts and the first 30 of its lines, or all if it has
/// fewer, between fences that are longer than any run of backticks in what is shown, the
/// first of them with the language. Whether lines may be missing is told with the number of
/// lines shown.
pub proof fn law_hover_of_a_text_file(
    root: Seq<u8>,
    root_name: Seq<char>,
    path: Seq<char>,
    head: Head,
    stats: TextStats,
    md: Seq<char>,
)
    ensures
        ({
            let lines = text_lines(head.text@);
            let shown = join_lines(lines.take(shown_of(lines.len())));
            let lang = language(joined(root, encode_utf8(path)));
            let note = if head.full || lines.len() > 30 {
                " — first "@ + decimal(shown_of(lines.len()) as nat) + " lines"@
            } else {
                Seq::<char>::empty()
            };
            is_hover(root, root_name, path, Found::Text(head, stats), md) <==> md == "**"@ + path
                + "** ("@ + decimal(stats.lines as nat) + " lines, "@ + decimal(stats.chars as nat)
                + " chars)"@ + note + seq!['\n'] + fence(shown) + lang + seq!['\n'] + shown + seq![
                '\n',
            ] + fence(shown)
        }),
{
    let lines = text_lines(head.text@);
    let shown = join_lines(lines.take(shown_of(lines.len())));
    let lang = language(joined(root, encode_utf8(path)));
    let full = head.full || lines.len() > 30;
    let note = if full {
        " — first "@ + decimal(shown_of(lines.len()) as nat) + " lines"@
    } else {
        Seq::<char>::empty()
    };
    assert(previewed(lines) == lines.take(shown_of(lines.len())));
    assert(lines.take(shown_of(lines.len())).len() == shown_of(lines.len()));
    reveal_strlit("\n");
    assert("\n"@ =~= seq!['\n']);
    let title = "**"@ + path + "** ("@ + decimal(stats.lines as nat) + " lines, "@ + decimal(
        stats.chars as nat,
    ) + " chars)"@;
    if full {
        assert(title + " — first "@ + decimal(shown_of(lines.len()) as nat) + " lines"@ =~= title
            + note);
    } else {
        assert(title + note =~= title);
    }
}

/// The language is the extension of the file, if that is UTF-8; else none is named.
pub proof fn law_which_language(path: Seq<u8>, ext: Seq<char>)
    ensures
        extension_of(path) == Some(encode_utf8(ext)) ==> language(path) == ext,
        extension_of(path) is None ==> language(path) == Seq::<char>::empty(),
        extension_of(path) is Some && !valid_utf8(extension_of(path)->0) ==> language(path)
            == Seq::<char>::empty(),
{
    encode_utf8_valid_utf8(ext);
    encode_utf8_decode_utf8(ext);
}

/// A file that was read to its end is text exactly if its bytes are those of a text, which
/// is then the text.
pub proof fn law_which_files_are_text(bytes: Seq<u8>, t: Seq<char>)
    ensures
        head_text(encode_utf8(t), false) == Some(t),
        head_text(bytes, false) matches Some(s) ==> encode_utf8(s) == bytes,
        !valid_utf8(bytes) ==> head_text(bytes, false) is None,
{
    encode_utf8_valid_utf8(t);
    encode_utf8_decode_utf8(t);
    if valid_utf8(bytes) {
        decode_utf8_encode_utf8(bytes);
    }
}

/// The first `k` bytes of a character.
pub open spec fn first_bytes(c: char, k: int) -> Seq<u8> {
    encode_scalar(c as u32).take(k)
}

/// The start of a file that goes on is text if its bytes are those of a text, and at most
/// some bytes of another character, but not all; the text is then what the whole characters
/// say.
pub proof fn law_which_starts_are_text(t: Seq<char>, c: char, k: int)
    requires
        0 <= k < encode_scalar(c as u32).len(),
    ensures
        head_text(encode_utf8(t) + first_bytes(c, k), true) == Some(t),
{
    let s = t.push(c);
    let rest = encode_scalar(c as u32);
    assert(s =~= t + seq![c]);
    lemma_encode_concat(t, seq![c]);
    reveal_with_fuel(encode_utf8, 2);
    assert(encode_utf8(seq![c]) =~= rest);
    let n = encode_utf8(t).len() + k;
    assert(encode_utf8(s).take(n) =~= encode_utf8(t) + rest.take(k));
    law_cut_text_reads_back(s, n);
    let i = partial_text(encode_utf8(s).take(n))->0.len() as int;
    let m = t.len() as int;
    assert(s.take(m) =~= t);
    lemma_byte_offset_ends(s);
    lemma_byte_offset_step(s, m);
    if i < m {
        lemma_byte_offset_mono(s, i + 1, m);
    }
    if i > m {
        assert(s.take(i) =~= s);
    }
    assert(i == m);
}

/// No other start of a file is text.
pub proof fn law_no_other_start_is_text(bytes: Seq<u8>)
    ensures
        head_text(bytes, true) matches Some(t) ==> bytes == encode_utf8(t) || exists|c: char, k: int|
            0 < k < encode_scalar(c as u32).len() && bytes == encode_utf8(t) + #[trigger] first_bytes(
                c,
                k,
            ),
{
    if let Some(t) = head_text(bytes, true) {
        if valid_utf8(bytes) {
            decode_utf8_encode_utf8(bytes);
        } else {
            let k: int = if cut_inside(bytes, 1) {
                1
            } else if cut_inside(bytes, 2) {
                2
            } else {
                3
            };
            assert(cut_inside(bytes, k));
            let (whole, tail) = (bytes.take(bytes.len() - k), bytes.skip(bytes.len() - k));
            decode_utf8_encode_utf8(whole);
            assert(starts_char(tail));
            let c = choose|c: char| is_start_of(tail, c);
            assert(tail.len() == k);
            assert(tail == first_bytes(c, k));
            assert(bytes =~= encode_utf8(t) + first_bytes(c, k));
        }
    }
}

/// How much of a file is read and shown.
pub proof fn law_sizes_of_previews()
    ensures
        HOVER_PREVIEW_LINES == 30,
        HOVER_READ_LIMIT == 65536,
{
}

} // verus!
