//! References and queries in prompt text.

use promptls::refs::{
    find_refs, is_boundary, is_terminator, is_trailing_punct, query_at, ref_at, split_line_suffix,
    Query,
};

fn paths(text: &str) -> Vec<(String, Option<u32>)> {
    find_refs(text).into_iter().map(|r| (r.path, r.line)).collect()
}

#[test]
fn basic_and_punctuation() {
    assert_eq!(paths("look at @src/main.rs."), vec![("src/main.rs".into(), None)]);
    assert_eq!(paths("(@a/b.ts) and @c/d,"), vec![("a/b.ts".into(), None), ("c/d".into(), None)]);
    assert_eq!(paths("`@x.md`"), vec![("x.md".into(), None)]);
}

#[test]
fn email_and_lone_at_are_ignored() {
    assert!(paths("mail me@example.com").is_empty());
    assert!(paths("a @ b").is_empty());
    assert!(paths("@").is_empty());
}

#[test]
fn line_suffix() {
    assert_eq!(paths("@src/a.rs:42"), vec![("src/a.rs".into(), Some(42))]);
    assert_eq!(paths("@src/a.rs:10-20"), vec![("src/a.rs".into(), Some(10))]);
    // Trailing colon is prose punctuation, not a line hint.
    assert_eq!(paths("@src/a.rs: yes"), vec![("src/a.rs".into(), None)]);
    // Non-numeric suffix stays part of the path.
    assert_eq!(paths("@C:foo"), vec![("C:foo".into(), None)]);
}

#[test]
fn spans_and_ref_at() {
    let t = "x @a/b.rs. y";
    let r = &find_refs(t)[0];
    assert_eq!((r.start, r.end), (2, 9));
    assert_eq!(ref_at(t, 5).unwrap().path, "a/b.rs");
    assert_eq!(ref_at(t, 9).unwrap().path, "a/b.rs"); // cursor right after token
    assert!(ref_at(t, 10).is_none());
    assert!(ref_at(t, 0).is_none());
}

#[test]
fn multibyte_before_reference() {
    let t = "見て @src/x.rs";
    let r = &find_refs(t)[0];
    assert_eq!(&t[r.start..r.end], "@src/x.rs");
}

#[test]
fn query_detection() {
    assert_eq!(query_at("see @src/co", 11), Some(Query { at: 4, text: "src/co".into() }));
    assert_eq!(query_at("@", 1), Some(Query { at: 0, text: String::new() }));
    assert!(query_at("see @src/co foo", 15).is_none());
    assert!(query_at("me@ex", 5).is_none());
    assert!(query_at("plain", 5).is_none());
}

#[test]
fn terminators_boundaries_and_punctuation() {
    for c in "()[]{}<>\"'`,| \t\n\u{3000}".chars() {
        assert!(is_terminator(c), "{c:?}");
    }
    for c in "@a/.:;!?-_*\\日".chars() {
        assert!(!is_terminator(c), "{c:?}");
    }
    assert!(is_boundary(None));
    for c in "()[]{}<>\"'`,|*_ \n\u{a0}".chars() {
        assert!(is_boundary(Some(c)), "{c:?}");
    }
    for c in "a1.@-:日".chars() {
        assert!(!is_boundary(Some(c)), "{c:?}");
    }
    for c in ".,;:!?".chars() {
        assert!(is_trailing_punct(c), "{c:?}");
    }
    assert!(!is_trailing_punct('-'));
}

#[test]
fn line_suffix_edge_cases() {
    assert_eq!(split_line_suffix("a:7"), ("a", Some(7)));
    assert_eq!(split_line_suffix("a:007"), ("a", Some(7)));
    assert_eq!(split_line_suffix("a:5-6"), ("a", Some(5)));
    assert_eq!(split_line_suffix("a:5-99999999999"), ("a", Some(5)));
    assert_eq!(split_line_suffix("a:10-"), ("a:10-", None));
    assert_eq!(split_line_suffix("a:10--"), ("a:10--", None));
    assert_eq!(split_line_suffix("a:5-6-7"), ("a:5-6-7", None));
    assert_eq!(split_line_suffix("a:5-x"), ("a:5-x", None));
    assert_eq!(split_line_suffix("a:5x-6"), ("a:5x-6", None));
    assert_eq!(split_line_suffix("a:-5"), ("a:-5", None));
    assert_eq!(split_line_suffix("a:+5"), ("a:+5", None));
    assert_eq!(split_line_suffix("a:"), ("a:", None));
    assert_eq!(split_line_suffix("a:1:2"), ("a:1", Some(2)));
    assert_eq!(split_line_suffix("a"), ("a", None));
    assert_eq!(split_line_suffix(":3"), ("", Some(3)));
    assert_eq!(split_line_suffix("a:4294967295"), ("a", Some(4294967295)));
    assert_eq!(split_line_suffix("a:4294967296"), ("a:4294967296", None));
    assert_eq!(split_line_suffix("日本:12"), ("日本", Some(12)));
}

#[test]
fn a_token_is_read_to_its_end() {
    assert_eq!(paths("@a@b"), vec![("a@b".into(), None)]);
    assert_eq!(paths("@a*@b"), vec![("a*@b".into(), None)]);
    assert_eq!(paths("*@a _@b"), vec![("a".into(), None), ("b".into(), None)]);
    assert_eq!(paths("@:3 @..."), vec![]);
    assert_eq!(paths("@ @x"), vec![("x".into(), None)]);
    assert_eq!(paths("wow @a?! and @b;"), vec![("a".into(), None), ("b".into(), None)]);
}

#[test]
fn references_are_ordered_and_apart() {
    let t = "@日本.md,@b.rs:3 (@c) x@d";
    let refs = find_refs(t);
    let spans: Vec<&str> = refs.iter().map(|r| &t[r.start..r.end]).collect();
    assert_eq!(spans, vec!["@日本.md", "@b.rs:3", "@c"]);
    for pair in refs.windows(2) {
        assert!(pair[0].end < pair[1].start);
    }
    for r in &refs {
        for offset in r.start..=r.end {
            assert_eq!(ref_at(t, offset).as_ref(), Some(r));
        }
    }
}

#[test]
fn a_query_follows_typing() {
    let t = "見て (@src/コ";
    let at = t.find('@').unwrap();
    let mut cursor = at + 1;
    assert_eq!(query_at(t, cursor), Some(Query { at, text: String::new() }));
    for c in t[at + 1..].chars() {
        cursor += c.len_utf8();
        assert_eq!(query_at(t, cursor), Some(Query { at, text: t[at + 1..cursor].into() }));
    }
    assert!(query_at(t, at).is_none());
    assert!(query_at(t, 0).is_none());
    assert!(query_at("a @b)c", 6).is_none());
    assert!(query_at("@a@b", 4).is_none());
}

#[test]
fn a_closing_bracket_is_a_boundary() {
    assert_eq!(paths("(@a)@b"), vec![("a".into(), None), ("b".into(), None)]);
    assert_eq!(paths("[x]@a {y}@b <z>@c"), vec![("a".into(), None), ("b".into(), None), ("c".into(), None)]);
    assert_eq!(query_at("f()@s", 5).map(|q| (q.at, q.text)), Some((3, "s".to_string())));
}

#[test]
fn white_space_splits_the_references() {
    let texts = ["", "@a", "x@a", "@a:3.", "(@b,", "@", "日 @c/日", "@a*@b", "*", "see @x! and"];
    for a in texts {
        for b in texts {
            for w in [" ", "\n", "\u{3000}"] {
                let mut expected = find_refs(a);
                for mut r in find_refs(b) {
                    r.start += a.len() + w.len();
                    r.end += a.len() + w.len();
                    expected.push(r);
                }
                assert_eq!(find_refs(&format!("{a}{w}{b}")), expected, "{a:?} {b:?}");
            }
        }
    }
}

#[test]
fn punctuation_at_the_end_changes_nothing() {
    for s in ["", "@a", "@a:3", "@a:", "@", "x @a/b.rs", "me@x", "@a b", "@a,"] {
        for p in [".", "?!", ",", ":", ";.", "..."] {
            assert_eq!(find_refs(&format!("{s}{p}")), find_refs(s), "{s:?} {p:?}");
        }
    }
}

#[test]
fn the_query_is_the_last_reference_before_the_cursor() {
    let s = "see @src/co.rs:12, (@日本/x.";
    for (n, _) in s.char_indices().chain([(s.len(), ' ')]) {
        if let Some(q) = query_at(s, n) {
            let refs = find_refs(&s[..n]);
            let token = q.text.trim_end_matches(is_trailing_punct);
            let (path, line) = split_line_suffix(token);
            if path.is_empty() {
                assert!(refs.iter().all(|r| r.end < q.at));
            } else {
                let r = refs.last().unwrap();
                assert_eq!((r.start, r.end), (q.at, q.at + 1 + token.len()));
                assert_eq!((r.path.as_str(), r.line), (path, line));
            }
        }
    }
    // Inside an earlier token the two differ.
    assert_eq!(query_at("@a*@b", 5).map(|q| q.at), Some(3));
    assert_eq!(find_refs("@a*@b").last().map(|r| r.start), Some(0));
}
