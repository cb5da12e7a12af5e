use ignore::WalkBuilder;
use nucleo_matcher::chars::{is_upper_case, normalize, to_lower_case};
use promptls::index::{is_walked, Entry, FileIndex, Walked};
use promptls::limits::can_score;
use std::io::Write;
use std::path::Path;
use tempfile::{Builder, NamedTempFile, TempDir};

/// A project on disk. Everything in it is removed when it is dropped, files first.
struct Fixture {
    files: Vec<NamedTempFile>,
    dirs: Vec<TempDir>,
    root: TempDir,
}

impl Fixture {
    fn new() -> Fixture {
        Fixture { files: Vec::new(), dirs: Vec::new(), root: tempfile::tempdir().unwrap() }
    }

    fn dir(&mut self, parent: &str, name: &str) {
        let at = self.root.path().join(parent);
        let dir = Builder::new().prefix(name).rand_bytes(0).tempdir_in(at).unwrap();
        self.dirs.insert(0, dir);
    }

    fn file(&mut self, parent: &str, name: &str, contents: &str) {
        let at = self.root.path().join(parent);
        let mut file = Builder::new().prefix(name).rand_bytes(0).tempfile_in(at).unwrap();
        file.write_all(contents.as_bytes()).unwrap();
        self.files.push(file);
    }
}

fn fixture() -> Fixture {
    let mut f = Fixture::new();
    f.dir("", "src");
    f.dir("src", "components");
    f.dir("", "node_modules");
    f.dir("node_modules", "pkg");
    f.dir("", ".config");
    f.dir("", ".git");
    f.file("src/components", "Button.tsx", "");
    f.file("src", "main.rs", "");
    f.file("node_modules/pkg", "index.js", "");
    f.file(".config", "settings.json", "");
    f.file(".git", "HEAD", "");
    f.file("", ".gitignore", "node_modules/\n");
    f.file("", "README.md", "");
    f
}

fn walk(root: &Path) -> Vec<Walked> {
    WalkBuilder::new(root)
        .hidden(false)
        .git_ignore(true)
        .git_global(true)
        .git_exclude(true)
        .filter_entry(|e| is_walked(e.file_name().as_encoded_bytes()))
        .build()
        .filter_map(|dent| dent.ok())
        .map(|dent| Walked {
            rel: dent.path().strip_prefix(root).ok().map(|p| p.as_os_str().as_encoded_bytes().to_vec()),
            is_dir: dent.file_type().is_some_and(|t| t.is_dir()),
        })
        .collect()
}

fn build(f: &Fixture, max_entries: usize) -> FileIndex {
    let root = f.root.path();
    FileIndex::build(root.as_os_str().as_encoded_bytes().to_vec(), walk(root), max_entries)
}

#[test]
fn respects_gitignore_and_skips_dot_git_but_keeps_hidden() {
    let dir = fixture();
    let idx = build(&dir, 10_000);
    let rels: Vec<&str> = idx.entries.iter().map(|e| e.rel.as_str()).collect();
    assert!(rels.contains(&"src/components/Button.tsx"));
    assert!(rels.contains(&".config/settings.json"));
    assert!(!rels.iter().any(|r| r.starts_with("node_modules")));
    assert!(!rels.iter().any(|r| r.starts_with(".git/") || *r == ".git"));
}

#[test]
fn fuzzy_search_matches_across_segments() {
    let dir = fixture();
    let idx = build(&dir, 10_000);
    let hits = idx.search("src/comp/but", 5);
    assert_eq!(hits[0].rel, "src/components/Button.tsx");
    let hits = idx.search("but", 5);
    assert_eq!(hits[0].rel, "src/components/Button.tsx");
}

#[test]
fn empty_query_lists_root_dirs_first() {
    let dir = fixture();
    let idx = build(&dir, 10_000);
    let hits: Vec<(&str, bool)> = idx.search("", 50).iter().map(|e| (e.rel.as_str(), e.is_dir)).collect();
    assert!(hits.iter().all(|(r, _)| !r.contains('/')));
    let first_file = hits.iter().position(|(_, d)| !*d).unwrap();
    assert!(hits[..first_file].iter().all(|(_, d)| *d));
    assert_eq!(
        hits,
        vec![(".config", true), ("src", true), (".gitignore", false), ("README.md", false)]
    );
}

#[test]
fn truncation_flag() {
    let dir = fixture();
    let idx = build(&dir, 2);
    assert!(idx.truncated);
    assert_eq!(idx.len(), 2);
}

fn found(rel: &str, is_dir: bool) -> Walked {
    Walked { rel: Some(rel.as_bytes().to_vec()), is_dir }
}

fn index_of(rels: &[&str]) -> FileIndex {
    let walk = rels.iter().map(|r| found(r, false)).collect();
    FileIndex::build(b"/p".to_vec(), walk, 1000)
}

fn rels(found: Vec<&Entry>) -> Vec<String> {
    found.iter().map(|e| e.rel.clone()).collect()
}

#[test]
fn an_empty_index_finds_nothing() {
    let idx = FileIndex::empty(b"/p".to_vec());
    assert_eq!(idx.root(), b"/p");
    assert_eq!(idx.len(), 0);
    assert!(!idx.truncated);
    assert!(idx.search("", 50).is_empty());
    assert!(idx.search("x", 50).is_empty());
}

#[test]
fn what_is_indexed() {
    let walk = vec![
        found("", true),
        found("a\\b", false),
        Walked { rel: Some(vec![b'x', 0xff]), is_dir: false },
        Walked { rel: None, is_dir: false },
        found("d", true),
        found("d/é.txt", false),
    ];
    let idx = FileIndex::build(b"/p".to_vec(), walk, 1000);
    assert_eq!(
        idx.entries,
        vec![
            Entry { rel: "a/b".into(), is_dir: false },
            Entry { rel: "d".into(), is_dir: true },
            Entry { rel: "d/é.txt".into(), is_dir: false },
        ]
    );
    assert!(!idx.truncated);
    assert_eq!(idx.root(), b"/p");
}

#[test]
fn a_walk_stops_at_the_limit() {
    let mut idx = FileIndex::empty(b"/p".to_vec());
    assert!(idx.add_walked(found("a", false), 2));
    assert!(idx.add_walked(found("", true), 2));
    assert!(!idx.truncated);
    assert!(!idx.add_walked(found("b", false), 2));
    assert!(idx.truncated);

    assert!(!idx.add_walked(found("c", false), 2));
    assert_eq!(idx.len(), 2);

    for max in 0..4 {
        let idx = FileIndex::build(b"/p".to_vec(), vec![found("a", false), found("b", false)], max);
        assert_eq!(idx.len(), max.min(2));
        assert_eq!(idx.truncated, max <= 2);
        assert_eq!(idx.root(), b"/p");
    }
    // Without an entry to leave out, nothing is truncated.
    let idx = FileIndex::build(b"/p".to_vec(), vec![found("", true)], 0);
    assert_eq!((idx.len(), idx.truncated), (0, false));
    let mut idx = FileIndex::empty(b"/p".to_vec());
    assert!(idx.add_walked(found("", true), 0));
    assert!(!idx.truncated);
    assert!(!idx.add_walked(found("a", true), 0));
    assert_eq!((idx.len(), idx.truncated), (0, true));
}

#[test]
fn only_dot_git_is_not_walked() {
    assert!(!is_walked(b".git"));
    assert!(is_walked(b".github"));
    assert!(is_walked(b".gitignore"));
    assert!(is_walked(b""));
}

#[test]
fn search_finds_matching_paths_best_first() {
    let idx = index_of(&["deep/nested/main.rs", "main.rs", "lib.rs", "domain/rs.txt"]);
    let hits = rels(idx.search("main.rs", 10));
    assert_eq!(hits[0], "main.rs");
    assert_eq!(hits[1], "deep/nested/main.rs");
    assert!(!hits.contains(&"lib.rs".to_string()));
    assert!(idx.search("zzz", 10).is_empty());
    assert_eq!(rels(idx.search("main.rs", 1)), vec!["main.rs"]);
    assert!(idx.search("main.rs", 0).is_empty());
    // Searching again gives the same.
    assert_eq!(rels(idx.search("main.rs", 10)), hits);
}

#[test]
fn case_counts_only_if_the_query_has_upper_case() {
    let idx = index_of(&["README.md", "readme.txt"]);
    assert_eq!(idx.search("readme", 10).len(), 2);
    assert_eq!(rels(idx.search("README", 10)), vec!["README.md"]);
}

#[test]
fn ranking_by_score_length_and_position() {
    let idx = index_of(&["bbbb", "aa", "cc", "d", "eee"]);
    let scores = vec![Some(7), Some(7), Some(7), None, Some(9)];
    assert_eq!(rels(idx.rank(&scores, 10)), vec!["eee", "aa", "cc", "bbbb"]);
    assert_eq!(rels(idx.rank(&scores, 2)), vec!["eee", "aa"]);
    assert!(idx.rank(&scores, 0).is_empty());
}

#[test]
fn listing_the_root() {
    let walk = vec![
        found("b.txt", false),
        found("z", true),
        found("z/inner", false),
        found("a.txt", false),
        found("B", true),
        found("é", false),
    ];
    let idx = FileIndex::build(b"/p".to_vec(), walk, 1000);
    assert_eq!(rels(idx.list_root(10)), vec!["B", "z", "a.txt", "b.txt", "é"]);
    assert_eq!(rels(idx.list_root(3)), vec!["B", "z", "a.txt"]);
    assert_eq!(rels(idx.search("", 3)), vec!["B", "z", "a.txt"]);
}

#[test]
fn a_smaller_limit_only_cuts_the_list() {
    let idx = index_of(&["src/main.rs", "main.rs", "domain.rs", "src/lib.rs", "m/a/i/n.rs"]);
    for query in ["", "main", "rs", "zzz"] {
        let all = rels(idx.search(query, 100));
        for limit in 0..7 {
            assert_eq!(rels(idx.search(query, limit)), all[..limit.min(all.len())], "{query:?}");
        }
    }
}

#[test]
fn long_queries_and_paths() {
    let long = "x".repeat(3000);
    let short = "x".repeat(2621);
    let idx = index_of(&["a", &long, &short]);
    assert_eq!(rels(idx.search("xxx", 10)), vec![short.clone(), long.clone()]);
    // The score of 2621 characters still fits.
    for n in [1310, 2621] {
        let query = "x".repeat(n);
        assert!(can_score(&query, &long) && can_score(&query, &short));
        assert_eq!(idx.search(&query, 10).len(), 2, "{n}");
    }
    // One more character, and a longer path cannot be scored; the others still are.
    let query = "x".repeat(2622);
    assert!(!can_score(&query, &long));
    assert!(can_score(&query, &short));
    assert!(can_score(&query, "a"));
    // Only characters that can match count.
    let query = format!("!{}", "y".repeat(3000));
    assert!(can_score(&query, &long));
    assert_eq!(rels(idx.search(&query, 10)), vec!["a".to_string(), short, long]);
    let mixed = format!("{}{}", "x".repeat(2621), "z".repeat(500));
    assert!(can_score(&"x".repeat(2622), &mixed));
    assert!(can_score(&"X".repeat(2622), &mixed));
    assert!(!can_score(&"X".repeat(2622), &format!("x{mixed}")));
    assert!(!can_score(&"x".repeat(2622), &format!("é{mixed}")));
}

#[test]
fn words_of_a_query_count_separately() {
    let long = "x".repeat(3000);
    let word = "x".repeat(2000);
    assert!(can_score(&format!("{word} {word}"), &long));
    assert!(!can_score(&format!("{word}\\ {word}"), &long));
    assert!(!can_score(&format!("{word}{word}"), &long));
    // A backslash may be kept and repeated.
    let slashes = "\\".repeat(3000);
    assert!(can_score(&"\\".repeat(1310), &slashes));
    assert!(!can_score(&"\\".repeat(1311), &slashes));
    let idx = index_of(&[&long, "x"]);
    assert_eq!(rels(idx.search(&format!("{word} {word}"), 10)), vec![long]);
}

#[test]
fn folded_lowercase_letters() {
    // The parts of the matcher disagree on where the word starts.
    assert!(!can_score("s\u{e9}", "\u{17f}/s\u{e9}"));
    assert!(!can_score("\u{3c3}\u{e4}", "\u{3c2}x\u{3c3}\u{e4}"));
    let idx = index_of(&["\u{17f}/s\u{e9}", "x/s\u{e9}", "s"]);
    assert_eq!(rels(idx.search("s\u{e9}", 10)), vec!["x/s\u{e9}"]);
    assert_eq!(idx.search("s", 10).len(), 3);
    let idx = index_of(&["\u{3c2}x\u{3c3}\u{e4}", "\u{3c3}\u{e4}"]);
    assert_eq!(rels(idx.search("\u{3c3}\u{e4}", 10)), vec!["\u{3c3}\u{e4}"]);
    assert_eq!(idx.search("\u{3c3}", 10).len(), 2);
}

#[test]
fn folded_lowercase_letters_that_do_no_harm() {
    for (query, rel) in [
        ("\u{e9}", "\u{e9}\u{b5}.md"),
        ("r\u{e9}seau", "mesures-\u{b5}s-r\u{e9}seau.md"),
        // The letter is matched as a whole.
        ("s\u{e9}", "\u{17f}\u{e9}"),
        ("s\u{e9}", "x/\u{17f}\u{e9}"),
        ("s\u{e9}", "\u{17f}\u{e9} s"),
        // A plain letter comes first.
        ("s\u{e9}", "s\u{e9}/\u{17f}-s\u{e9}"),
        ("s\u{e9}", "src/S\u{e9}-\u{17f}"),
        ("s\u{e9}", "\u{e9}s\u{e9}/\u{17f}-s\u{e9}"),
        // Accents that are merged with their letters, or stand in another word.
        ("se\u{301}", "\u{17f}/se\u{301}"),
        ("s \u{e9}", "\u{17f}/s\u{e9}"),
        // Words with a capital, and words at the end of the path.
        ("s\u{c9}", "\u{17f}/s\u{c9}"),
        ("s\u{e9}$", "\u{17f}/s\u{e9}"),
        ("^\u{17f}", "\u{17f}/s\u{e9}"),
    ] {
        assert!(can_score(query, rel), "{query:?} {rel:?}");
        assert_eq!(rels(index_of(&[rel]).search(query, 10)), vec![rel], "{query:?}");
    }
}

#[test]
fn letters_agree_with_the_matcher() {
    for c in ('\0'..=char::MAX).filter(|c| !c.is_ascii()) {
        // A letter that may be replaced by a plain one is accented.
        if normalize(c) != c && !is_upper_case(c) {
            assert!(!can_score(&format!("s{c}"), "\u{17f}/s\u{e9}"), "{c:?}");
        }
        // A word with a letter that counts as a capital is matched with its case.
        if can_score(&format!("s{c}\u{e9}"), "\u{17f}/s\u{e9}") {
            assert!(is_upper_case(c), "{c:?}");
        }
        // Lowercase letters that case folding changes, and capitals of what it gives.
        let f = to_lower_case(c);
        if f != c && c.is_lowercase() {
            assert!(!can_score(&format!("{f}\u{e9}"), &format!("{c}/{f}\u{e9}")), "{c:?}");
            for h in ('\0'..='\u{ffff}').filter(|h| to_lower_case(*h) == f && !h.is_lowercase()) {
                assert!(!can_score(&format!("{f}\u{e9}"), &format!("{c}/{h}\u{e9}")), "{c:?} {h:?}");
            }
        }
    }
}
