//! Checks of the library's parts on concrete values.

use comment_rot::changes::{diff_lines, signed_lines, LineTag};
use comment_rot::engine::{self, EngineError};
use comment_rot::extract::extract_file;
use comment_rot::hashing::{hash_str, normalize_for_hash, short_anchor};
use comment_rot::idmap::IdMap;
use comment_rot::model::{
    now_unix, CommentKind, ConfirmInput, ItemKind, KnownIssues, ScopedItem, Snapshot, Verdict,
};
use comment_rot::scan::{
    files_for_ids, scan_readable_sources, scan_sources, sort_paths, ScanFailure, SourceFile,
};
use comment_rot::text::{
    append_decimal, compare_text, is_blank, str_eq, trim_chars, TextOrder,
};

fn items_of(src: &str) -> Vec<ScopedItem> {
    extract_file("src/lib.rs", src).unwrap()
}

#[test]
fn hash_of_empty_text_is_the_blake3_digest_of_nothing() {
    assert_eq!(
        hash_str(""),
        "af1349b9f5f9a1a6a0404dea36dcc9499bcb25c9adc112b7cc9a93cae41f3262"
    );
    assert_eq!(hash_str("   \n\t "), hash_str(""));
}

#[test]
fn hash_has_sixty_four_hex_digits() {
    let h = hash_str("fn main() {}");
    assert_eq!(h.len(), 64);
    assert!(h.chars().all(|c| c.is_ascii_digit() || ('a'..='f').contains(&c)));
    assert_ne!(h, "fn main() {}");
}

#[test]
fn any_whitespace_run_normalizes_the_same() {
    assert_eq!(normalize_for_hash("a \t\n\u{2003} b"), "a b");
    assert_eq!(hash_str("let x =\n\t1;"), hash_str("let x = 1;"));
    assert_eq!(normalize_for_hash("\u{3000}x\u{85}"), "x");
    assert_eq!(short_anchor("x").len(), 12);
}

#[test]
fn labels_name_each_kind() {
    assert_eq!(ItemKind::Function.label(), "function");
    assert_eq!(ItemKind::Impl.label(), "impl block");
    assert_eq!(ItemKind::TypeAlias.label(), "type alias");
    assert_eq!(ItemKind::Extern.label(), "extern block");
    assert_eq!(ItemKind::Free.label(), "code");
}

#[test]
fn engine_errors_explain_themselves() {
    assert!(EngineError::AlreadyInitialized.message().contains("already exists"));
    assert!(EngineError::NotInitialized.message().contains("rot init"));
    let err = engine::init(true, false, &[], 0).unwrap_err();
    assert_eq!(err, EngineError::AlreadyInitialized);
    assert!(engine::init(true, true, &[], 0).is_ok());
}

#[test]
fn id_map_keeps_ids_sorted_and_replaces_values() {
    let mut m: IdMap<u32> = IdMap::new();
    m.insert("b".to_string(), 2);
    m.insert("a".to_string(), 1);
    m.insert("B".to_string(), 3);
    m.insert("b".to_string(), 20);
    assert_eq!(m.len(), 3);
    assert_eq!(m.key_at(0), "B");
    assert_eq!(m.key_at(1), "a");
    assert_eq!(m.key_at(2), "b");
    assert_eq!(m.get("b"), Some(&20));
    assert_eq!(m.remove("a"), Some(1));
    assert_eq!(m.remove("a"), None);
    assert!(!m.contains_key("a"));
    assert_eq!(m.len(), 2);
}

#[test]
fn paths_are_sorted_bytewise_once_each() {
    let paths: Vec<String> = ["src/b.rs", "src/a.rs", "Z.rs", "src/a.rs"]
        .iter()
        .map(|s| s.to_string())
        .collect();
    assert_eq!(sort_paths(&paths), vec!["Z.rs", "src/a.rs", "src/b.rs"]);
}

#[test]
fn ids_name_their_files() {
    let ids: Vec<String> = ["src/a.rs|crate::f", "src/a.rs|crate::g", "noid", "b|c|d"]
        .iter()
        .map(|s| s.to_string())
        .collect();
    assert_eq!(files_for_ids(&ids), vec!["b", "src/a.rs"]);
}

#[test]
fn unreadable_files_fail_a_full_scan_but_not_a_partial_one() {
    let files: Vec<SourceFile> = vec![
        ("src/a.rs".to_string(), Some("/// doc\nfn a() {}\n".to_string())),
        ("src/bad.rs".to_string(), None),
    ];
    let err = scan_sources(&files).unwrap_err();
    assert_eq!(err.failure, ScanFailure::Unreadable);
    assert_eq!(err.file, "src/bad.rs");
    let items = scan_readable_sources(&files).unwrap();
    assert_eq!(items.len(), 1);
    assert_eq!(items[0].id, "src/a.rs|crate::a");
}

#[test]
fn repeated_comments_are_numbered() {
    let items = items_of("fn f() {\n    // same\n    a();\n    // same\n    b();\n    // same\n    c();\n}\n");
    assert_eq!(items.len(), 3);
    assert!(!items[0].id.ends_with(":1"));
    assert!(items[1].id.ends_with(":1"));
    assert!(items[2].id.ends_with(":2"));
    assert_ne!(items[0].id, items[1].id);
}

#[test]
fn every_id_is_the_file_and_the_path() {
    let items = items_of("//! crate doc\n/// a\nfn a() {\n    // inner\n    let x = 1; // side\n}\n");
    assert_eq!(items.len(), 4);
    for it in &items {
        assert_eq!(it.file, "src/lib.rs");
        assert_eq!(it.id, format!("src/lib.rs|{}", it.item_path));
    }
    assert_eq!(items[0].comment_kind, CommentKind::InnerDoc);
    assert_eq!(items[0].item_path, "crate");
}

#[test]
fn block_comments_and_lines_are_recorded() {
    let items = items_of("fn f() {\n    let y = 2; /* side */\n}\n");
    assert_eq!(items.len(), 1);
    assert_eq!(items[0].comment_kind, CommentKind::Block);
    assert_eq!(items[0].line, 2);
    assert_eq!(items[0].body_text, "let y = 2;");
    assert!(items[0].item_path.contains("#trailing:"));
}

#[test]
fn non_ascii_source_is_sliced_by_characters() {
    let items = items_of("/// héllo ✓\nfn ünïcode() -> &'static str {\n    \"naïve\"\n}\n");
    assert_eq!(items.len(), 1);
    assert_eq!(items[0].item_path, "crate::ünïcode");
    assert_eq!(items[0].comment_text, " héllo ✓\n");
    assert!(items[0].body_text.contains("\"naïve\""));
}

#[test]
fn a_candidate_stays_a_candidate_until_a_verdict() {
    let before = extract_file("src/lib.rs", "/// doc\nfn f() -> i32 { 1 }\n").unwrap();
    let after = extract_file("src/lib.rs", "/// doc\nfn f() -> i32 { 2 }\n").unwrap();
    let init = engine::init(false, false, &before, 0).unwrap();
    let first = engine::check(true, &init.snapshot, &after, KnownIssues::new(), 0).unwrap();
    assert_eq!(first.candidates.len(), 1);
    let second = engine::check(true, &first.snapshot, &after, first.known_issues, 0).unwrap();
    assert_eq!(second.candidates.len(), 1);
    assert_eq!(second.updated + second.added, 0);
    let applied = engine::apply_verdicts(
        second.snapshot,
        &after,
        second.known_issues,
        &[ConfirmInput { id: "src/lib.rs|crate::f".to_string(), verdict: Verdict::No }],
        7,
    );
    assert_eq!(applied.flagged, 1);
    let issue = applied.known_issues.issues.get("src/lib.rs|crate::f").unwrap();
    assert_eq!(issue.flagged_at, 7);
    assert_eq!(issue.reason, "confirmed stale by user");
    assert!(issue.old_body_text.contains("1"));
    assert!(issue.new_body_text.contains("2"));
    let third = engine::check(true, &applied.snapshot, &after, applied.known_issues, 0).unwrap();
    assert!(third.candidates.is_empty());
    assert_eq!(third.unchanged, 1);
}

#[test]
fn a_fresh_baseline_finds_nothing() {
    let items = extract_file("src/lib.rs", "/// a\nfn a() {}\n/// b\nstruct B;\n").unwrap();
    let init = engine::init(false, false, &items, 0).unwrap();
    assert_eq!(init.entries, 2);
    let check = engine::check(true, &init.snapshot, &items, init.known_issues, 0).unwrap();
    assert!(check.candidates.is_empty());
    assert_eq!((check.added, check.updated, check.unchanged, check.pruned), (0, 0, 2, 0));
}

#[test]
fn moving_code_to_other_lines_raises_no_candidate() {
    let before = "/// a\nfn a() {\n    // step\n    run();\n    x(); // side\n}\n/// b\nstruct B;\n";
    let after = "\n\n/// a\nfn a() {\n\n    // step\n    run();\n    x(); // side\n}\n\n\n/// b\nstruct B;\n";
    let old = items_of(before);
    let new = items_of(after);
    assert_eq!(old.len(), new.len());
    for (o, n) in old.iter().zip(new.iter()) {
        assert_eq!(o.id, n.id);
        assert_eq!(o.comment_hash(), n.comment_hash());
        assert_eq!(o.body_hash(), n.body_hash());
        assert_ne!(o.line, n.line);
    }
    let init = engine::init(false, false, &old, 0).unwrap();
    let check = engine::check(true, &init.snapshot, &new, init.known_issues, 0).unwrap();
    assert!(check.candidates.is_empty());
    assert_eq!((check.added, check.updated, check.pruned), (0, 0, 0));
    assert_eq!(check.unchanged, old.len());
}

#[test]
fn reconcile_keeps_issues_of_unchanged_comments_only() {
    let items = extract_file("src/lib.rs", "/// a\nfn a() {}\n/// b\nfn b() {}\n").unwrap();
    let mut issues = KnownIssues::new();
    issues.flag_at("src/lib.rs|crate::a", ItemKind::Function, "src/lib.rs", "crate::a", " a", "", "", "r", 1);
    issues.flag_at("src/lib.rs|crate::b", ItemKind::Function, "src/lib.rs", "crate::b", " old", "", "", "r", 1);
    issues.flag("src/lib.rs|crate::gone", ItemKind::Function, "src/lib.rs", "crate::gone", " x", "", "", "r");
    let cleared = issues.reconcile(&items);
    assert_eq!(cleared, 2);
    assert!(issues.issues.contains_key("src/lib.rs|crate::a"));
    assert!(!issues.issues.contains_key("src/lib.rs|crate::b"));
    assert!(!issues.issues.contains_key("src/lib.rs|crate::gone"));
    assert!(issues.clear("src/lib.rs|crate::a"));
    assert!(!issues.clear("src/lib.rs|crate::a"));
}

#[test]
fn texts_compare_and_trim() {
    assert!(str_eq("abc", "abc"));
    assert!(!str_eq("abc", "abd"));
    assert_eq!(compare_text("a", "b"), TextOrder::Less);
    assert_eq!(compare_text("é", "z"), TextOrder::Greater);
    assert_eq!(compare_text("ab", "ab"), TextOrder::Equal);
    assert_eq!(trim_chars(&"  a b \n".chars().collect()), vec!['a', ' ', 'b']);
    assert!(is_blank(&" \t\u{2028}".chars().collect()));
    let mut v = Vec::new();
    append_decimal(&mut v, 1407);
    assert_eq!(v.into_iter().collect::<String>(), "1407");
}

#[test]
fn clock_reads_after_the_epoch() {
    assert!(now_unix() > 0);
    assert_eq!(Snapshot::new().version, 1);
}

#[test]
fn code_changes_are_shown_line_by_line_with_signs() {
    let lines = diff_lines("fn f() {\n    a();\n}\n", "fn f() {\n    b();\n}\n");
    let shown: Vec<(LineTag, &str)> = lines.iter().map(|(t, l)| (*t, l.as_str())).collect();
    assert_eq!(
        shown,
        vec![
            (LineTag::Equal, " fn f() {\n"),
            (LineTag::Delete, "-    a();\n"),
            (LineTag::Insert, "+    b();\n"),
            (LineTag::Equal, " }\n"),
        ]
    );
}

#[test]
fn a_last_line_without_newline_is_shown_with_one() {
    let lines = diff_lines("x", "y");
    let shown: Vec<&str> = lines.iter().map(|(_, l)| l.as_str()).collect();
    assert_eq!(shown, vec!["-x\n", "+y\n"]);
}

#[test]
fn signs_are_put_in_front_of_each_line() {
    let changes = vec![
        (LineTag::Insert, "new\n".to_string()),
        (LineTag::Equal, "same\n".to_string()),
        (LineTag::Delete, "".to_string()),
    ];
    let signed = signed_lines(&changes);
    assert_eq!(signed[0], (LineTag::Insert, "+new\n".to_string()));
    assert_eq!(signed[1], (LineTag::Equal, " same\n".to_string()));
    assert_eq!(signed[2], (LineTag::Delete, "-".to_string()));
}

#[test]
fn rechecking_the_same_scan_changes_nothing() {
    let before = items_of("/// a\nfn a() { 1 }\n/// b\nfn b() { 2 }\n/// c\nfn c() {}\n");
    let after = items_of("/// a\nfn a() { 10 }\n/// b changed\nfn b() { 2 }\n/// c\nfn c() {}\n/// d\nfn d() {}\n");
    let init = engine::init(false, false, &before, 0).unwrap();
    let first = engine::check(true, &init.snapshot, &after, KnownIssues::new(), 0).unwrap();
    assert_eq!((first.added, first.updated, first.unchanged), (1, 1, 1));
    assert_eq!(first.candidates.len(), 1);
    let second = engine::check(true, &first.snapshot, &after, KnownIssues::new(), 0).unwrap();
    assert_eq!((second.added, second.updated, second.pruned), (0, 0, 0));
    assert_eq!(second.unchanged, first.added + first.updated + first.unchanged);
    assert_eq!(second.candidates.len(), 1);
    assert_eq!(second.candidates[0].id, first.candidates[0].id);
    assert_eq!(second.candidates[0].old_body_text, first.candidates[0].old_body_text);
}

#[test]
fn normalizing_twice_is_normalizing_once() {
    for s in ["  a \t b\n\nc  ", "", " \n ", "x", "fn f()  {\n    1\n}"] {
        let once = normalize_for_hash(s);
        assert_eq!(normalize_for_hash(&once), once);
        let words: Vec<&str> = s.split_whitespace().collect();
        assert_eq!(once, words.join(" "));
    }
}

#[test]
fn editing_a_nested_comment_keeps_the_code_text() {
    let a = items_of("/// doc\nfn f() {\n    // one note\n    g();\n}\n");
    let b = items_of("/// doc\nfn f() {\n    // two note\n    g();\n}\n");
    assert_eq!(a[0].item_path, "crate::f");
    assert_eq!(a[0].body_text, b[0].body_text);
    assert_eq!(a[0].body_hash(), b[0].body_hash());
    assert!(!a[0].body_text.contains("note"));
}

#[test]
fn baselines_are_dated_with_the_given_time() {
    assert_eq!(Snapshot::new_at(5).generated_at, 5);
    let items = items_of("/// a\nfn a() {}\n");
    let init = engine::init(false, false, &items, 42).unwrap();
    assert_eq!(init.snapshot.generated_at, 42);
    let check = engine::check(true, &init.snapshot, &items, init.known_issues, 43).unwrap();
    assert_eq!(check.snapshot.generated_at, 43);
    assert_eq!(init.snapshot.diff_at(&items, 44).new_baseline.generated_at, 44);
}

#[test]
fn answers_become_verdicts_in_order() {
    let before = items_of("/// a\nfn a() { 1 }\n/// b\nfn b() { 1 }\n");
    let after = items_of("/// a\nfn a() { 2 }\n/// b\nfn b() { 2 }\n");
    let init = engine::init(false, false, &before, 0).unwrap();
    let check = engine::check(true, &init.snapshot, &after, KnownIssues::new(), 0).unwrap();
    let verdicts = engine::verdicts_from_answers(&check.candidates, &[true, false]);
    assert_eq!(verdicts.len(), 2);
    assert_eq!(verdicts[0].id, "src/lib.rs|crate::a");
    assert_eq!(verdicts[0].verdict, Verdict::Yes);
    assert_eq!(verdicts[1].id, "src/lib.rs|crate::b");
    assert_eq!(verdicts[1].verdict, Verdict::No);
    assert!(engine::verdicts_from_answers(&check.candidates, &[]).is_empty());
}
