use promptls::format::{decimal_text, fence_for, join_first, padded_text, split_lines};
use promptls::hover::{as_text, hover_markdown, Found, Head, Listed};
use promptls::partial::decode_partial;
use promptls::refs::PathRef;
use promptls::stats::{text_stats, StatsCounter, TextStats};

fn reference(path: &str) -> PathRef {
    PathRef { start: 0, end: path.len() + 1, path: path.into(), line: None }
}

fn hover(path: &str, found: Found) -> String {
    hover_markdown(b"/p", "/p", &reference(path), &found)
}

fn text(contents: &str) -> Found {
    let head = as_text(contents.as_bytes(), false).unwrap();
    Found::Text(head, text_stats(contents.as_bytes()))
}

#[test]
fn text_stats_counts_lines_and_utf8_chars() {
    let st = |bytes: &[u8]| text_stats(bytes);
    assert_eq!(st(b""), TextStats { lines: 0, chars: 0 });
    assert_eq!(st(b"a\nb\n"), TextStats { lines: 2, chars: 4 });
    assert_eq!(st(b"a\nb"), TextStats { lines: 2, chars: 3 });
    // 3 multibyte chars (9 bytes) + newline = 4 chars.
    assert_eq!(st("日本語\n".as_bytes()), TextStats { lines: 1, chars: 4 });
}

#[test]
fn hover_shows_line_count() {
    let r = PathRef { start: 0, end: 10, path: "hover.txt".into(), line: None };
    let md = hover_markdown(b"/p", "/p", &r, &text("one\ntwo\nthree\n"));
    assert!(md.contains("(3 lines, 14 chars)"), "{md}");
}

#[test]
fn counting_in_parts() {
    let contents = "日本語\nx\r\n\n😀 end".as_bytes();
    let whole = text_stats(contents);
    assert_eq!(whole, TextStats { lines: 4, chars: 13 });
    for cut in 0..=contents.len() {
        let counter = StatsCounter::new();
        assert!(counter.has_room(contents.len()));
        let counter = counter.feed(&contents[..cut]).feed(&[]).feed(&contents[cut..]);
        assert!(!counter.has_room(usize::MAX));
        assert_eq!(counter.finish(), whole);
    }
}

#[test]
fn counts_agree_with_std() {
    for s in ["", "a", "\n", "a\n", "\n\n", "a\nb", "a\r\nb\r\n", "\r", "é\n日本\n😀", "x\n\n\ny"] {
        let stats = text_stats(s.as_bytes());
        assert_eq!(stats.chars, s.chars().count(), "{s:?}");
        assert_eq!(stats.lines, s.lines().count(), "{s:?}");
        assert_eq!(split_lines(s), s.lines().collect::<Vec<_>>(), "{s:?}");
        let lines = split_lines(s);
        assert_eq!(join_first(&lines, lines.len()), s.lines().collect::<Vec<_>>().join("\n"));
    }
}

#[test]
fn hover_on_what_cannot_be_shown() {
    assert_eq!(hover("x.md", Found::Missing), "`x.md` — **not found** under `/p`");
    assert_eq!(hover("d", Found::UnreadableDir("denied".into())), "`d/` — cannot read: denied");
    assert_eq!(hover("f", Found::UnreadableFile("denied".into())), "`f` — cannot read: denied");
    assert_eq!(hover("a.bin", Found::Binary(1234)), "**a.bin** — binary file, 1234 bytes");
}

#[test]
fn hover_on_a_directory() {
    let names = vec![
        Listed { name: "b.rs".into(), is_dir: false },
        Listed { name: "a".into(), is_dir: true },
        Listed { name: "B.rs".into(), is_dir: false },
        Listed { name: "a.rs".into(), is_dir: false },
    ];
    assert_eq!(hover("d", Found::Dir(names)), "**d/** (4 entries)\n```\nB.rs\na.rs\na/\nb.rs\n```");
    assert_eq!(hover("d", Found::Dir(Vec::new())), "**d/** (0 entries)\n```\n\n```");
}

#[test]
fn hover_on_a_large_directory() {
    let listed = |n: usize| {
        let names = (0..n).rev().map(|i| Listed { name: format!("f{i:03}"), is_dir: false }).collect();
        hover("d", Found::Dir(names))
    };
    let md = listed(30);
    assert!(md.starts_with("**d/** (30 entries)\n```\nf000\nf001\n"), "{md}");
    assert!(md.ends_with("\nf029\n```"), "{md}");
    let md = listed(42);
    assert!(md.starts_with("**d/** (42 entries)\n```\nf000\nf001\n"), "{md}");
    assert!(md.ends_with("\nf029\n… 12 more\n```"), "{md}");
}

#[test]
fn hover_on_a_text_file() {
    assert_eq!(
        hover("src/a.rs", text("fn main() {}\r\n// é")),
        "**src/a.rs** (2 lines, 18 chars)\n````rs\nfn main() {}\n// é\n````"
    );
    assert_eq!(hover("LICENSE", text("")), "**LICENSE** (0 lines, 0 chars)\n````\n\n````");
}

#[test]
fn the_fence_is_longer_than_any_run() {
    assert_eq!(fence_for(""), "````");
    assert_eq!(fence_for("a ``` b"), "````");
    assert_eq!(fence_for("````"), "`````");
    assert_eq!(fence_for("``` `````` ````"), "```````");
    let md = hover("a.md", text("````rust\nx\n````\n"));
    assert_eq!(md, "**a.md** (3 lines, 16 chars)\n`````md\n````rust\nx\n````\n`````");
}

#[test]
fn long_previews_are_cut() {
    let lines = |n: usize| (0..n).map(|i| format!("{i}\n")).collect::<String>();
    let md = hover("a.txt", text(&lines(30)));
    assert!(md.starts_with("**a.txt** (30 lines, 80 chars)\n````txt\n0\n1\n"), "{md}");
    assert!(md.ends_with("\n29\n````"), "{md}");
    let md = hover("a.txt", text(&lines(31)));
    assert!(md.starts_with("**a.txt** (31 lines, 83 chars) — first 30 lines\n````txt\n0\n1\n"), "{md}");
    assert!(md.ends_with("\n29\n````"), "{md}");

    // The file was not read to its end, whatever its lines.
    let head = "x".repeat(65536);
    let stats = TextStats { lines: 2, chars: 70000 };
    let md = hover("a.txt", Found::Text(as_text(head.as_bytes(), true).unwrap(), stats));
    assert_eq!(md, format!("**a.txt** (2 lines, 70000 chars) — first 1 lines\n````txt\n{head}\n````"));
    let head = "x".repeat(65535);
    let md = hover("a.txt", text(&head));
    assert!(md.starts_with("**a.txt** (1 lines, 65535 chars)\n"), "{}", &md[..80]);
    let head = Head { text: "x".into(), full: true };
    let md = hover("a.txt", Found::Text(head, TextStats { lines: 1, chars: 9 }));
    assert_eq!(md, "**a.txt** (1 lines, 9 chars) — first 1 lines\n````txt\nx\n````");
}

#[test]
fn a_long_text_file_is_previewed_wherever_it_is_cut() {
    let first: String = (0..30).map(|i| format!("{i}\n")).collect();
    let shown = first.trim_end();
    for pad in 0..5 {
        let contents = format!("{first}{}{}", "x".repeat(pad), "日é😀".repeat(10_000));
        assert!(contents.len() > 65536);
        let head = as_text(&contents.as_bytes()[..65536], true).unwrap();
        assert!(head.full);
        assert!(contents.starts_with(&head.text));
        assert!(head.text.len() > 65536 - 4);
        let stats = text_stats(contents.as_bytes());
        let (lines, chars) = (stats.lines, stats.chars);
        assert_eq!((lines, chars), (31, 80 + pad + 30_000));
        let md = hover("a.txt", Found::Text(head, stats));
        assert_eq!(
            md,
            format!("**a.txt** ({lines} lines, {chars} chars) — first 30 lines\n````txt\n{shown}\n````")
        );
    }
}

#[test]
fn whole_characters_of_a_cut_text() {
    let s = "aé日\u{fffd}😀\u{10ffff}\u{800}\u{d7ff}\u{e000}\u{10000}z";
    for n in 0..=s.len() {
        let whole: String = s.char_indices().filter(|(i, c)| i + c.len_utf8() <= n).map(|(_, c)| c).collect();
        assert_eq!(decode_partial(&s.as_bytes()[..n]), Some(whole), "{n}");
    }
}

#[test]
fn bytes_that_no_text_starts_with() {
    for tail in [
        &[0x80][..], &[0xc0], &[0xc1], &[0xf5], &[0xff], &[0xe0, 0x80], &[0xe0, 0x9f], &[0xed, 0xa0], &[0xf0, 0x8f],
        &[0xf4, 0x90], &[0xf0, 0x90, 0x40], &[0xe1, 0x41], &[0xc2, 0x41], &[0x80, 0x80], &[0xf1, 0x80, 0x80, 0x41],
        &[0xff, 0xf0, 0x90, 0x80],
    ] {
        let mut bytes = b"ab".to_vec();
        bytes.extend_from_slice(tail);
        assert_eq!(decode_partial(&bytes), None, "{tail:?}");
    }
    for (i, tail) in [&[0xc2][..], &[0xf4], &[0xe0, 0xa0], &[0xed, 0x9f], &[0xf0, 0x90, 0xbf]].iter().enumerate() {
        let mut bytes = b"ab".to_vec();
        bytes.extend_from_slice(tail);
        assert_eq!(decode_partial(&bytes), Some("ab".to_string()), "{i}");
    }
}

#[test]
fn the_language_is_the_extension() {
    let lang = |root: &[u8], path: &str| {
        let md = hover_markdown(root, "r", &reference(path), &text("x"));
        md.lines().nth(1).unwrap().trim_start_matches('`').to_string()
    };
    assert_eq!(lang(b"/p", "a/b.tar.gz"), "gz");
    assert_eq!(lang(b"/p", ".bashrc"), "");
    assert_eq!(lang(b"/p", "a.d/b"), "");
    assert_eq!(lang(b"/p.x", "."), "x");
    assert_eq!(lang(b"/p.\xff", "."), "");
    assert_eq!(lang(b"/p", "a.日本"), "日本");
}

#[test]
fn text_is_utf8() {
    let read = |bytes: &[u8], more: bool| as_text(bytes, more).map(|h| (h.text, h.full));
    assert_eq!(read("é日".as_bytes(), false), Some(("é日".to_string(), false)));
    assert_eq!(read(b"", false), Some((String::new(), false)));
    assert_eq!(read(&[0xff, 0xfe], false), None);
    assert_eq!(read(&[0xff, 0xfe], true), None);
    // An unfinished character counts only where the file goes on.
    assert_eq!(read(&"é".as_bytes()[..1], false), None);
    let mut bytes = vec![b'x'; 65535];
    bytes.push(0xc3);
    assert_eq!(read(&bytes, true), Some(("x".repeat(65535), true)));
    assert_eq!(read(&bytes, false), None);
    bytes[65535] = 0xff;
    assert_eq!(read(&bytes, true), None);
    bytes[65535] = b'x';
    assert_eq!(read(&bytes, false), Some(("x".repeat(65536), true)));
    bytes[0] = 0xff;
    assert_eq!(read(&bytes, true), None);
}

#[test]
fn numbers_in_texts() {
    for n in [0, 1, 9, 10, 11, 99, 100, 12345, 99999, 100000, u64::MAX] {
        assert_eq!(decimal_text(n), n.to_string());
        assert_eq!(padded_text(n, 5), format!("{n:05}"));
        assert_eq!(padded_text(n, 0), n.to_string());
    }
    assert!(padded_text(9, 5) < padded_text(10, 5));
}
