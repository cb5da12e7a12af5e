use promptls::index::{FileIndex, Walked};
use promptls::server::Backend;
use promptls::text::{Position, Range};

const URI: &str = "file:///tmp/prompt.md";

fn backend() -> Backend {
    Backend::new(b"/p".to_vec(), "/p".into(), 1000)
}

fn with_text(text: &str) -> Backend {
    let mut b = backend();
    b.did_open(URI.into(), text.into());
    b
}

fn with_index(text: &str, entries: &[(&str, bool)]) -> Backend {
    let walk = entries
        .iter()
        .map(|(rel, is_dir)| Walked { rel: Some(rel.as_bytes().to_vec()), is_dir: *is_dir })
        .collect();
    let mut b = with_text(text);
    b.rebuild_index(FileIndex::build(b"/p".to_vec(), walk, 1000));
    b
}

fn pos(line: u32, character: u32) -> Position {
    Position::new(line, character)
}

fn text_of(b: &Backend, uri: &str) -> Option<String> {
    b.document(uri).map(|d| d.text().to_string())
}

#[test]
fn a_new_server_knows_nothing() {
    let b = backend();
    assert_eq!(b.root, b"/p");
    assert_eq!(b.max_entries, 1000);
    assert_eq!(b.index.len(), 0);
    assert_eq!(b.index.root(), b"/p");
    assert!(b.document(URI).is_none());
    assert!(b.completion(URI, pos(0, 0)).is_none());
    assert!(b.hover(URI, pos(0, 0)).is_none());
    assert!(b.goto_definition(URI, pos(0, 0)).is_none());
}

#[test]
fn documents_read_back() {
    let mut b = backend();
    b.did_open(URI.into(), "one".into());
    b.did_open("other".into(), "two".into());
    assert_eq!(text_of(&b, URI), Some("one".into()));
    assert!(b.did_change(URI.into(), vec!["skipped".into(), "three".into()]));
    assert_eq!(text_of(&b, URI), Some("three".into()));
    assert!(!b.did_change(URI.into(), Vec::new()));
    assert_eq!(text_of(&b, URI), Some("three".into()));
    assert_eq!(text_of(&b, "other"), Some("two".into()));
    b.did_close(URI);
    assert_eq!(text_of(&b, URI), None);
    assert_eq!(text_of(&b, "other"), Some("two".into()));
    b.did_close(URI);
    // A change of a document that is not open opens it.
    assert!(b.did_change(URI.into(), vec!["four".into()]));
    assert_eq!(text_of(&b, URI), Some("four".into()));
}

#[test]
fn a_closed_document_gets_no_answers() {
    let mut b = with_index("@src", &[("src", true)]);
    assert!(b.completion(URI, pos(0, 4)).is_some());
    assert!(b.hover(URI, pos(0, 2)).is_some());
    assert!(b.goto_definition(URI, pos(0, 2)).is_some());
    b.did_close(URI);
    assert!(b.completion(URI, pos(0, 4)).is_none());
    assert!(b.hover(URI, pos(0, 2)).is_none());
    assert!(b.goto_definition(URI, pos(0, 2)).is_none());
}

#[test]
fn index_messages() {
    let mut b = backend();
    let walk = || {
        vec![
            Walked { rel: Some(b"a".to_vec()), is_dir: false },
            Walked { rel: Some(b"b".to_vec()), is_dir: false },
        ]
    };
    let msg = b.rebuild_index(FileIndex::build(b"/p".to_vec(), walk(), 1000));
    assert_eq!(msg, "promptls: indexed 2 entries under /p");
    assert_eq!(b.index.len(), 2);
    let msg = b.rebuild_index(FileIndex::build(b"/p".to_vec(), walk(), 1));
    assert_eq!(msg, "promptls: indexed 1 entries under /p (truncated; raise --max-entries)");
    assert_eq!(b.index.len(), 1);
}

#[test]
fn references_are_resolved_under_the_root() {
    let b = with_text("@a/b and @/etc/x:3, @../c");
    assert_eq!(b.resolve("a/b"), b"/p/a/b");
    assert_eq!(
        b.ref_paths(b.document(URI).unwrap()),
        vec![b"/p/a/b".to_vec(), b"/etc/x".to_vec(), b"/p/../c".to_vec()]
    );
    let paths = b.ref_paths(b.document(URI).unwrap());
    let under: Vec<bool> = paths.iter().map(|p| b.under_root(p)).collect();
    assert_eq!(under, vec![true, false, false]);
}

#[test]
fn missing_paths_are_diagnosed() {
    let b = with_text("日 @here @gone.\n(@also/gone:7)");
    let doc = b.document(URI).unwrap();
    let diags = b.publish_diagnostics(doc, &vec![true, false, false]);
    let said: Vec<(Range, &str)> = diags.iter().map(|d| (d.range, d.message.as_str())).collect();
    assert_eq!(
        said,
        vec![
            (Range::new(pos(0, 8), pos(0, 13)), "`gone` does not exist under /p"),
            (Range::new(pos(1, 1), pos(1, 13)), "`also/gone` does not exist under /p"),
        ]
    );
    assert!(b.publish_diagnostics(doc, &vec![true, true, true]).is_empty());
}

#[test]
fn hover_finds_the_reference() {
    let b = with_text("x\n日 @src/a.rs:12, y");
    let (r, range) = b.hover(URI, pos(1, 5)).unwrap();
    assert_eq!(r.path, "src/a.rs");
    assert_eq!(r.line, Some(12));
    assert_eq!(range, Range::new(pos(1, 2), pos(1, 14)));
    assert_eq!(b.hover(URI, pos(1, 2)).unwrap().0, r);
    assert_eq!(b.hover(URI, pos(1, 14)).unwrap().0, r);
    assert!(b.hover(URI, pos(1, 1)).is_none());
    assert!(b.hover(URI, pos(1, 15)).is_none());
    assert!(b.hover(URI, pos(2, 0)).is_none());
    let (doc, found) = b.ref_at_position(URI, pos(1, 5)).unwrap();
    assert_eq!(doc.text(), "x\n日 @src/a.rs:12, y");
    assert_eq!(found, r);
}

#[test]
fn definitions_point_to_lines() {
    let at = |text: &str| {
        let d = with_text(text).goto_definition(URI, pos(0, 1)).unwrap();
        (d.path, d.line)
    };
    assert_eq!(at("@a.rs"), (b"/p/a.rs".to_vec(), 0));
    assert_eq!(at("@a.rs:42"), (b"/p/a.rs".to_vec(), 41));
    assert_eq!(at("@a.rs:1"), (b"/p/a.rs".to_vec(), 0));
    assert_eq!(at("@a.rs:0"), (b"/p/a.rs".to_vec(), 0));
    assert_eq!(at("@a.rs:10-20"), (b"/p/a.rs".to_vec(), 9));
    assert!(with_text("a.rs").goto_definition(URI, pos(0, 1)).is_none());
}

#[test]
fn completion_offers_paths() {
    let entries = [("src", true), ("src/components", true), ("src/components/Button.tsx", false), ("x", false)];
    let b = with_index("see @src/comp/but", &entries);
    let c = b.completion(URI, pos(0, 17)).unwrap();
    assert_eq!(c.range, Range::new(pos(0, 5), pos(0, 17)));
    assert_eq!(c.items.len(), 1);
    assert_eq!(c.items[0].insert, "src/components/Button.tsx");
    assert!(!c.items[0].is_dir);
    assert_eq!(c.items[0].sort_text, "00000");
    // Only what stands before the cursor counts.
    let c = b.completion(URI, pos(0, 8)).unwrap();
    assert_eq!(c.range, Range::new(pos(0, 5), pos(0, 8)));
    let inserts: Vec<&str> = c.items.iter().map(|i| i.insert.as_str()).collect();
    assert_eq!(inserts, vec!["src/", "src/components/", "src/components/Button.tsx"]);
    assert!(b.completion(URI, pos(0, 4)).is_none());
    assert!(b.completion(URI, pos(0, 0)).is_none());
    assert!(b.completion(URI, pos(1, 0)).is_none());
}

#[test]
fn completion_of_a_bare_at_lists_the_root() {
    let b = with_index("\n日 @", &[("a.txt", false), ("z", true), ("z/y", false)]);
    let c = b.completion(URI, pos(1, 3)).unwrap();
    assert_eq!(c.range, Range::new(pos(1, 3), pos(1, 3)));
    let items: Vec<(&str, bool, &str)> =
        c.items.iter().map(|i| (i.insert.as_str(), i.is_dir, i.sort_text.as_str())).collect();
    assert_eq!(items, vec![("z/", true, "00000"), ("a.txt", false, "00001")]);
}

#[test]
fn completion_is_bounded_and_sorted() {
    let names: Vec<String> = (0..80).map(|i| format!("file{i:02}.txt")).collect();
    let entries: Vec<(&str, bool)> = names.iter().map(|n| (n.as_str(), false)).collect();
    let b = with_index("@file", &entries);
    let c = b.completion(URI, pos(0, 5)).unwrap();
    assert_eq!(c.items.len(), 50);
    assert!(c.items.windows(2).all(|w| w[0].sort_text < w[1].sort_text));
    let again = b.completion(URI, pos(0, 5)).unwrap();
    let inserts = |c: &promptls::server::Completion| -> Vec<String> {
        c.items.iter().map(|i| i.insert.clone()).collect()
    };
    assert_eq!(inserts(&again), inserts(&c));
}

#[test]
fn long_queries_are_completed() {
    let long = "x".repeat(3000);
    let text = format!("@{}", "x".repeat(2622));
    let b = with_index(&text, &[(long.as_str(), false), ("x", false)]);
    for n in [1, 1310, 2621] {
        let c = b.completion(URI, pos(0, n + 1)).unwrap();
        assert!(c.items.iter().any(|i| i.insert == long), "{n}");
    }
    // A path that cannot be scored is left out of the list.
    let c = b.completion(URI, pos(0, 2623)).unwrap();
    assert!(c.items.is_empty());
}

#[test]
fn a_path_that_cannot_be_scored_is_left_out() {
    let b = with_index("@s\u{e9}", &[("\u{17f}/s\u{e9}", false), ("s\u{e9}", true)]);
    let c = b.completion(URI, pos(0, 3)).unwrap();
    let inserts: Vec<&str> = c.items.iter().map(|i| i.insert.as_str()).collect();
    assert_eq!(inserts, vec!["s\u{e9}/"]);
}
