//! End-to-end runs of the commands on a project held in memory: each file is
//! scanned as the command-line tool scans it from disk, and the baseline and
//! known issues are kept between commands as the tool stores them.

use comment_rot::engine::{self, ApplyOutcome, CheckOutcome, InitOutcome};
use comment_rot::model::{
    now_unix, Candidate, ConfirmInput, ItemKind, KnownIssue, KnownIssues, ScopedItem, Snapshot,
    Verdict,
};
use comment_rot::scan::{
    files_for_ids, scan_readable_sources, scan_sources, sort_paths, ScanError, SourceFile,
};

struct Project {
    files: Vec<(String, Option<String>)>,
    snapshot: Option<Snapshot>,
    issues: Option<KnownIssues>,
}

impl Project {
    fn new() -> Self {
        Project { files: Vec::new(), snapshot: None, issues: None }
    }

    /// Writes (or overwrites) a file at `rel`.
    fn write(&mut self, rel: &str, contents: &str) {
        self.put(rel, Some(contents.to_string()));
    }

    /// Writes a file that cannot be read as text.
    fn write_unreadable(&mut self, rel: &str) {
        self.put(rel, None);
    }

    fn put(&mut self, rel: &str, contents: Option<String>) {
        match self.files.iter_mut().find(|f| f.0 == rel) {
            Some(f) => f.1 = contents,
            None => self.files.push((rel.to_string(), contents)),
        }
    }

    fn read(&self, rel: &str) -> Option<String> {
        self.files.iter().find(|f| f.0 == rel).and_then(|f| f.1.clone())
    }

    fn scan_project(&self) -> Result<Vec<ScopedItem>, String> {
        let names: Vec<String> = self.files.iter().map(|f| f.0.clone()).collect();
        let sources: Vec<SourceFile> =
            sort_paths(&names).into_iter().map(|n| { let t = self.read(&n); (n, t) }).collect();
        scan_sources(&sources).map_err(describe)
    }

    fn scan_files_for_ids(&self, ids: &[String]) -> Result<Vec<ScopedItem>, String> {
        let sources: Vec<SourceFile> =
            files_for_ids(ids).into_iter().map(|n| { let t = self.read(&n); (n, t) }).collect();
        scan_readable_sources(&sources).map_err(describe)
    }

    fn load_snapshot(&self) -> Snapshot {
        match &self.snapshot {
            Some(s) => copy_snapshot(s),
            None => Snapshot::new(),
        }
    }

    fn load_issues(&self) -> KnownIssues {
        match &self.issues {
            Some(i) => copy_issues(i),
            None => KnownIssues::new(),
        }
    }
}

fn describe(e: ScanError) -> String {
    format!("{:?} {}", e.failure, e.file)
}

fn copy_snapshot(s: &Snapshot) -> Snapshot {
    let mut c = Snapshot::new();
    c.version = s.version;
    c.generated_at = s.generated_at;
    for i in 0..s.entries.len() {
        c.entries.insert(s.entries.key_at(i).clone(), s.entries.val_at(i).clone());
    }
    c
}

fn copy_issues(s: &KnownIssues) -> KnownIssues {
    let mut c = KnownIssues::new();
    c.version = s.version;
    for i in 0..s.issues.len() {
        c.issues.insert(s.issues.key_at(i).clone(), s.issues.val_at(i).clone());
    }
    c
}

fn init(p: &mut Project, force: bool) -> Result<InitOutcome, String> {
    let exists = p.snapshot.is_some();
    let fresh = if exists && !force { Vec::new() } else { p.scan_project()? };
    let outcome = engine::init(exists, force, &fresh, 0).map_err(|e| e.message())?;
    p.snapshot = Some(copy_snapshot(&outcome.snapshot));
    p.issues = Some(copy_issues(&outcome.known_issues));
    Ok(outcome)
}

fn check(p: &mut Project) -> Result<CheckOutcome, String> {
    let exists = p.snapshot.is_some();
    if !exists {
        return Err(engine::check(false, &Snapshot::new(), &[], KnownIssues::new(), 0)
            .unwrap_err()
            .message());
    }
    let old = p.load_snapshot();
    let fresh = p.scan_project()?;
    let outcome = engine::check(exists, &old, &fresh, p.load_issues(), 0).map_err(|e| e.message())?;
    p.snapshot = Some(copy_snapshot(&outcome.snapshot));
    p.issues = Some(copy_issues(&outcome.known_issues));
    Ok(outcome)
}

fn apply_verdicts(p: &mut Project, verdicts: &[ConfirmInput]) -> Result<ApplyOutcome, String> {
    let snap = p.load_snapshot();
    let ids: Vec<String> = verdicts.iter().map(|v| v.id.clone()).collect();
    let fresh = p.scan_files_for_ids(&ids)?;
    let issues = p.load_issues();
    let outcome = engine::apply_verdicts(snap, &fresh, issues, verdicts, now_unix());
    p.snapshot = Some(copy_snapshot(&outcome.snapshot));
    p.issues = Some(copy_issues(&outcome.known_issues));
    Ok(outcome)
}

fn status(p: &Project) -> Result<Vec<(String, KnownIssue)>, String> {
    Ok(engine::status(&p.load_issues()))
}

fn resolve(p: &mut Project, id: &str) -> Result<bool, String> {
    let mut issues = p.load_issues();
    let removed = engine::resolve(&mut issues, id);
    p.issues = Some(issues);
    Ok(removed)
}

fn candidate_for(p: &mut Project, before: &str, after: &str) -> Candidate {
    p.write("src/lib.rs", before);
    init(p, false).unwrap();
    p.write("src/lib.rs", after);
    let outcome = check(p).unwrap();
    assert_eq!(
        outcome.candidates.len(),
        1,
        "expected exactly one candidate, got {:#?}",
        outcome.candidates
    );
    outcome.candidates.into_iter().next().unwrap()
}

fn one_candidate(p: &mut Project) -> Candidate {
    let outcome = check(p).unwrap();
    assert_eq!(outcome.candidates.len(), 1);
    outcome.candidates.into_iter().next().unwrap()
}

// ---- baseline and check ----

#[test]
fn body_change_with_unchanged_comment_is_flagged() {
    let mut p = Project::new();
    p.write(
        "src/lib.rs",
        r#"
/// Adds two numbers.
pub fn add(a: i32, b: i32) -> i32 {
    a + b
}
"#,
    );
    init(&mut p, false).unwrap();

    p.write(
        "src/lib.rs",
        r#"
/// Adds two numbers.
pub fn add(a: i32, b: i32) -> i32 {
    a + b + 1
}
"#,
    );
    let outcome = check(&mut p).unwrap();
    assert_eq!(outcome.candidates.len(), 1);
    let c = &outcome.candidates[0];
    assert_eq!(c.item_path, "crate::add");
    assert!(c.old_body_text.contains("a + b"));
    assert!(c.new_body_text.contains("a + b + 1"));
}

#[test]
fn simultaneous_change_is_silently_absorbed_into_baseline() {
    let mut p = Project::new();
    p.write("src/lib.rs", "/// old doc\npub fn f() {}\n");
    init(&mut p, false).unwrap();

    p.write(
        "src/lib.rs",
        r#"
/// new doc
pub fn f() {
    let _ = 1;
}
"#,
    );
    let outcome = check(&mut p).unwrap();
    assert!(outcome.candidates.is_empty());
    assert_eq!(outcome.updated, 1);

    let outcome2 = check(&mut p).unwrap();
    assert!(outcome2.candidates.is_empty());
    assert_eq!(outcome2.unchanged, 1);
}

#[test]
fn no_change_reports_unchanged_not_updated() {
    let mut p = Project::new();
    p.write("src/lib.rs", "/// doc\npub fn f() {}\n");
    init(&mut p, false).unwrap();

    let outcome = check(&mut p).unwrap();
    assert_eq!(outcome.unchanged, 1);
    assert_eq!(outcome.updated, 0);
    assert_eq!(outcome.added, 0);
    assert!(outcome.candidates.is_empty());
}

#[test]
fn renamed_item_is_pruned_and_readded_without_a_prompt() {
    let mut p = Project::new();
    p.write("src/lib.rs", "/// doc\npub fn old_name() {}\n");
    init(&mut p, false).unwrap();

    p.write("src/lib.rs", "/// doc\npub fn new_name() {}\n");
    let outcome = check(&mut p).unwrap();
    assert_eq!(outcome.pruned, 1);
    assert_eq!(outcome.added, 1);
    assert!(outcome.candidates.is_empty());
}

#[test]
fn confirming_yes_updates_baseline_so_it_stops_resurfacing() {
    let mut p = Project::new();
    p.write(
        "src/lib.rs",
        r#"
/// doc
pub fn f() -> i32 {
    1
}
"#,
    );
    init(&mut p, false).unwrap();

    p.write(
        "src/lib.rs",
        r#"
/// doc
pub fn f() -> i32 {
    2
}
"#,
    );
    let outcome = check(&mut p).unwrap();
    assert_eq!(outcome.candidates.len(), 1);
    let id = outcome.candidates[0].id.clone();

    let apply = apply_verdicts(
        &mut p,
        &[ConfirmInput {
            id,
            verdict: Verdict::Yes,
        }],
    )
    .unwrap();
    assert_eq!(apply.updated, 1);
    assert_eq!(apply.flagged, 0);

    let outcome2 = check(&mut p).unwrap();
    assert!(outcome2.candidates.is_empty());
    assert_eq!(outcome2.unchanged, 1);
}

#[test]
fn apply_verdicts_only_rescans_files_the_verdicts_touch() {
    let mut p = Project::new();
    p.write(
        "src/lib.rs",
        r#"
/// doc
pub fn f() -> i32 {
    1
}
"#,
    );
    init(&mut p, false).unwrap();

    p.write(
        "src/lib.rs",
        r#"
/// doc
pub fn f() -> i32 {
    2
}
"#,
    );
    let outcome = check(&mut p).unwrap();
    assert_eq!(outcome.candidates.len(), 1);
    let id = outcome.candidates[0].id.clone();

    p.write_unreadable("src/broken.rs");

    let apply = apply_verdicts(
        &mut p,
        &[ConfirmInput {
            id,
            verdict: Verdict::Yes,
        }],
    )
    .unwrap();
    assert_eq!(apply.updated, 1);

    let outcome2 = check(&mut p);
    assert!(
        outcome2.is_err(),
        "sanity check: a full-project check must fail on the invalid-UTF-8 file"
    );
}

#[test]
fn apply_verdicts_skips_ids_that_no_longer_exist() {
    let mut p = Project::new();
    p.write("src/lib.rs", "/// doc\npub fn f() {}\n");
    init(&mut p, false).unwrap();

    let apply = apply_verdicts(
        &mut p,
        &[ConfirmInput {
            id: "crate::does_not_exist".to_string(),
            verdict: Verdict::No,
        }],
    )
    .unwrap();
    assert_eq!(apply.updated, 0);
    assert_eq!(apply.skipped_missing, 1);
}

// ---- init ----

#[test]
fn init_creates_baseline_with_expected_entry_count() {
    let mut p = Project::new();
    p.write(
        "src/lib.rs",
        "/// Adds two numbers.\npub fn add(a: i32, b: i32) -> i32 {\n    a + b\n}\n",
    );
    let outcome = init(&mut p, false).unwrap();
    assert_eq!(outcome.entries, 1);
}

#[test]
fn init_ignores_items_with_no_comment() {
    let mut p = Project::new();
    p.write("src/lib.rs", "pub fn f() {}\npub struct S { pub a: i32 }\n");
    let outcome = init(&mut p, false).unwrap();
    assert_eq!(outcome.entries, 0);
}

#[test]
fn init_refuses_to_overwrite_without_force() {
    let mut p = Project::new();
    p.write("src/lib.rs", "pub fn f() {}\n");
    init(&mut p, false).unwrap();

    let err = init(&mut p, false).unwrap_err();
    assert!(err.contains("already exists"));
}

#[test]
fn init_force_rebaselines_from_scratch() {
    let mut p = Project::new();
    p.write("src/lib.rs", "/// doc\npub fn f() {}\n");
    init(&mut p, false).unwrap();

    p.write(
        "src/lib.rs",
        "/// doc\npub fn f() {}\n/// doc2\npub fn g() {}\n",
    );
    let outcome = init(&mut p, true).unwrap();
    assert_eq!(outcome.entries, 2);
}

#[test]
fn check_without_init_errors() {
    let mut p = Project::new();
    p.write("src/lib.rs", "pub fn f() {}\n");
    let err = check(&mut p).unwrap_err();
    assert!(err.contains("rot init"));
}

// ---- known issues ----

#[test]
fn no_verdict_flags_a_known_issue_visible_via_status() {
    let mut p = Project::new();
    p.write("src/lib.rs", "/// doc\npub fn f() -> i32 {\n    1\n}\n");
    init(&mut p, false).unwrap();
    p.write("src/lib.rs", "/// doc\npub fn f() -> i32 {\n    2\n}\n");
    let c = one_candidate(&mut p);

    let apply = apply_verdicts(
        &mut p,
        &[ConfirmInput {
            id: c.id.clone(),
            verdict: Verdict::No,
        }],
    )
    .unwrap();
    assert_eq!(apply.flagged, 1);

    let issues = status(&p).unwrap();
    assert_eq!(issues.len(), 1);
    assert_eq!(issues[0].0, c.id);

    // Baseline moved forward, so it doesn't resurface as a fresh candidate.
    let outcome2 = check(&mut p).unwrap();
    assert!(outcome2.candidates.is_empty());
}

#[test]
fn editing_the_comment_auto_clears_the_known_issue() {
    let mut p = Project::new();
    p.write("src/lib.rs", "/// old doc\npub fn f() -> i32 {\n    1\n}\n");
    init(&mut p, false).unwrap();
    p.write("src/lib.rs", "/// old doc\npub fn f() -> i32 {\n    2\n}\n");
    let c = one_candidate(&mut p);
    apply_verdicts(
        &mut p,
        &[ConfirmInput {
            id: c.id.clone(),
            verdict: Verdict::No,
        }],
    )
    .unwrap();
    assert_eq!(status(&p).unwrap().len(), 1);

    p.write("src/lib.rs", "/// new doc\npub fn f() -> i32 {\n    2\n}\n");
    let outcome = check(&mut p).unwrap();
    assert_eq!(outcome.issues_cleared, 1);
    assert!(status(&p).unwrap().is_empty());
}

#[test]
fn resolve_manually_clears_an_issue() {
    let mut p = Project::new();
    p.write("src/lib.rs", "/// doc\npub fn f() -> i32 {\n    1\n}\n");
    init(&mut p, false).unwrap();
    p.write("src/lib.rs", "/// doc\npub fn f() -> i32 {\n    2\n}\n");
    let c = one_candidate(&mut p);
    apply_verdicts(
        &mut p,
        &[ConfirmInput {
            id: c.id.clone(),
            verdict: Verdict::No,
        }],
    )
    .unwrap();

    assert!(resolve(&mut p, &c.id).unwrap());
    assert!(status(&p).unwrap().is_empty());
    // Already gone - resolving again reports nothing found.
    assert!(!resolve(&mut p, &c.id).unwrap());
}

#[test]
fn removing_the_item_prunes_its_known_issue() {
    let mut p = Project::new();
    p.write(
        "src/lib.rs",
        "/// doc\npub fn f() -> i32 {\n    1\n}\npub fn keep() {}\n",
    );
    init(&mut p, false).unwrap();
    p.write(
        "src/lib.rs",
        "/// doc\npub fn f() -> i32 {\n    2\n}\npub fn keep() {}\n",
    );
    let c = one_candidate(&mut p);
    apply_verdicts(
        &mut p,
        &[ConfirmInput {
            id: c.id.clone(),
            verdict: Verdict::No,
        }],
    )
    .unwrap();
    assert_eq!(status(&p).unwrap().len(), 1);

    p.write("src/lib.rs", "pub fn keep() {}\n");
    check(&mut p).unwrap();
    assert!(status(&p).unwrap().is_empty());
}

#[test]
fn yes_verdict_clears_a_previously_flagged_issue() {
    let mut p = Project::new();
    p.write("src/lib.rs", "/// doc\npub fn f() -> i32 {\n    1\n}\n");
    init(&mut p, false).unwrap();
    p.write("src/lib.rs", "/// doc\npub fn f() -> i32 {\n    2\n}\n");
    let c = one_candidate(&mut p);
    apply_verdicts(
        &mut p,
        &[ConfirmInput {
            id: c.id.clone(),
            verdict: Verdict::No,
        }],
    )
    .unwrap();
    assert_eq!(status(&p).unwrap().len(), 1);

    // A later re-review (e.g. via a second `confirm` call) can say "yes"
    // and clear it without needing the comment text to change.
    apply_verdicts(
        &mut p,
        &[ConfirmInput {
            id: c.id,
            verdict: Verdict::Yes,
        }],
    )
    .unwrap();
    assert!(status(&p).unwrap().is_empty());
}

// ---- identity ----

#[test]
fn same_path_in_two_files_does_not_collide() {
    let mut p = Project::new();
    p.write("src/lib.rs", "/// doc for lib\npub fn helper() {}\n");
    p.write("src/bin/tool.rs", "/// doc for tool\nfn helper() {}\n");

    let outcome = init(&mut p, false).unwrap();
    assert_eq!(
        outcome.entries, 2,
        "each file's `helper` must be tracked separately"
    );

    p.write(
        "src/lib.rs",
        r#"
/// doc for lib
pub fn helper() {
    1
}
"#,
    );
    let check = check(&mut p).unwrap();
    assert_eq!(check.candidates.len(), 1);
    assert_eq!(check.candidates[0].file, "src/lib.rs");
}

#[test]
fn free_comment_id_stays_stable_while_its_code_changes() {
    let mut p = Project::new();
    p.write(
        "src/lib.rs",
        r#"
pub fn f() {
    // note
    let x = 1;
}
"#,
    );
    init(&mut p, false).unwrap();

    p.write(
        "src/lib.rs",
        r#"
pub fn f() {
    // note
    let x = 999;
}
"#,
    );
    let outcome = check(&mut p).unwrap();
    assert_eq!(
        outcome.added, 0,
        "the id must not change just because the code did"
    );
    assert_eq!(outcome.pruned, 0);
    assert_eq!(outcome.candidates.len(), 1);
}

#[test]
fn duplicate_identical_comments_in_one_function_are_tracked_independently() {
    let mut p = Project::new();
    p.write(
        "src/lib.rs",
        r#"
pub fn f() {
    // note
    let a = 1;
    // note
    let b = 2;
}
"#,
    );
    let outcome = init(&mut p, false).unwrap();
    assert_eq!(
        outcome.entries, 2,
        "each occurrence needs its own id, not one shared id"
    );

    p.write(
        "src/lib.rs",
        r#"
pub fn f() {
    // note
    let a = 100;
    // note
    let b = 2;
}
"#,
    );
    let check = check(&mut p).unwrap();
    assert_eq!(check.candidates.len(), 1);
    assert!(check.candidates[0].old_body_text.contains("let a = 1"));
}

#[test]
fn free_comment_end_to_end_confirm_roundtrip() {
    let mut p = Project::new();
    p.write(
        "src/lib.rs",
        r#"
pub fn f() {
    // uses the default limit
    let limit = 10;
}
"#,
    );
    init(&mut p, false).unwrap();

    p.write(
        "src/lib.rs",
        r#"
pub fn f() {
    // uses the default limit
    let limit = 20;
}
"#,
    );
    let outcome = check(&mut p).unwrap();
    assert_eq!(outcome.candidates.len(), 1);
    let id = outcome.candidates[0].id.clone();

    apply_verdicts(
        &mut p,
        &[ConfirmInput {
            id,
            verdict: Verdict::No,
        }],
    )
    .unwrap();
    assert_eq!(status(&p).unwrap().len(), 1);
}

// ---- scoping ----

#[test]
fn function_scope_hashes_the_full_body() {
    let mut p = Project::new();
    let c = candidate_for(
        &mut p,
        r#"
/// doc
pub fn f(a: i32) -> i32 {
    a
}
"#,
        r#"
/// doc
pub fn f(a: i32) -> i32 {
    a + 1
}
"#,
    );
    assert_eq!(c.kind, ItemKind::Function);
    assert_eq!(c.item_path, "crate::f");
}

#[test]
fn struct_scope_tracks_its_field_list() {
    let mut p = Project::new();
    let c = candidate_for(
        &mut p,
        r#"
/// doc
pub struct S {
    pub a: i32,
}
"#,
        r#"
/// doc
pub struct S {
    pub a: i32,
    pub b: i32,
}
"#,
    );
    assert_eq!(c.kind, ItemKind::Struct);
    assert_eq!(c.item_path, "crate::S");
}

#[test]
fn field_scope_is_independent_of_the_struct() {
    let mut p = Project::new();
    let c = candidate_for(
        &mut p,
        r#"
pub struct S {
    /// doc
    pub a: i32,
}
"#,
        r#"
pub struct S {
    /// doc
    pub a: u64,
}
"#,
    );
    assert_eq!(c.kind, ItemKind::Field);
    assert_eq!(c.item_path, "crate::S::a");
}

#[test]
fn enum_variant_scope() {
    let mut p = Project::new();
    let c = candidate_for(
        &mut p,
        r#"
pub enum E {
    /// doc
    A(i32),
}
"#,
        r#"
pub enum E {
    /// doc
    A(u64),
}
"#,
    );
    assert_eq!(c.kind, ItemKind::Variant);
    assert_eq!(c.item_path, "crate::E::A");
}

#[test]
fn field_inside_a_struct_like_enum_variant_is_its_own_scope() {
    let mut p = Project::new();
    let c = candidate_for(
        &mut p,
        r#"
pub enum E {
    Check {
        path: i32,
        /// doc
        json: bool,
    },
}
"#,
        r#"
pub enum E {
    Check {
        path: i32,
        /// doc
        json: u8,
    },
}
"#,
    );
    assert_eq!(c.kind, ItemKind::Field);
    assert_eq!(c.item_path, "crate::E::Check::json");
}

#[test]
fn doc_comment_attaches_through_an_intervening_attribute() {
    let mut p = Project::new();
    let c = candidate_for(
        &mut p,
        r#"
pub struct S {
    /// doc
    #[arg(long)]
    pub force: i32,
}
"#,
        r#"
pub struct S {
    /// doc
    #[arg(long)]
    pub force: u64,
}
"#,
    );
    assert_eq!(c.kind, ItemKind::Field);
    assert_eq!(c.item_path, "crate::S::force");
}

#[test]
fn macro_rules_scope() {
    let mut p = Project::new();
    let c = candidate_for(
        &mut p,
        r#"
/// doc
macro_rules! double {
    ($x:expr) => {
        $x * 2
    };
}
"#,
        r#"
/// doc
macro_rules! double {
    ($x:expr) => {
        $x * 3
    };
}
"#,
    );
    assert_eq!(c.kind, ItemKind::Macro);
    assert_eq!(c.item_path, "crate::double");
}

#[test]
fn trait_associated_type_scope() {
    let mut p = Project::new();
    let c = candidate_for(
        &mut p,
        r#"
pub trait T {
    /// doc
    type Item;
}
"#,
        r#"
pub trait T {
    /// doc
    type Item: Clone;
}
"#,
    );
    assert_eq!(c.kind, ItemKind::TypeAlias);
    assert_eq!(c.item_path, "crate::T::Item");
}

#[test]
fn extern_block_scope() {
    let mut p = Project::new();
    let c = candidate_for(
        &mut p,
        r#"
/// doc
extern "C" {
    fn foo();
}
"#,
        r#"
/// doc
extern "C" {
    fn foo(x: i32);
}
"#,
    );
    assert_eq!(c.kind, ItemKind::Extern);
    assert_eq!(c.item_path, "crate::extern \"C\"");
}

#[test]
fn extern_block_body_is_recursed_into() {
    let mut p = Project::new();
    let c = candidate_for(
        &mut p,
        r#"
extern "C" {
    /// doc
    fn foo(x: i32);
}
"#,
        r#"
extern "C" {
    /// doc
    fn foo(x: i64);
}
"#,
    );
    assert_eq!(c.kind, ItemKind::Function);
    assert_eq!(c.item_path, "crate::extern \"C\"::foo");
}

#[test]
fn attribute_only_change_is_visible_to_the_field_it_decorates() {
    let mut p = Project::new();
    let c = candidate_for(
        &mut p,
        r#"
pub struct S {
    /// doc
    #[arg(long, short)]
    pub force: bool,
}
"#,
        r#"
pub struct S {
    /// doc
    #[arg(long)]
    pub force: bool,
}
"#,
    );
    assert_eq!(c.kind, ItemKind::Field);
    assert_eq!(c.item_path, "crate::S::force");
}

#[test]
fn attribute_only_change_surfaces_at_the_field_not_just_the_enclosing_variant() {
    let mut p = Project::new();
    p.write(
        "src/lib.rs",
        r#"
pub enum Command {
    /// Manually clear a known-issue entry by id
    Resolve {
        id: String,
        /// Print the result as JSON instead of plain text
        #[arg(long, short)]
        json: bool,
    },
}
"#,
    );
    init(&mut p, false).unwrap();

    p.write(
        "src/lib.rs",
        r#"
pub enum Command {
    /// Manually clear a known-issue entry by id
    Resolve {
        id: String,
        /// Print the result as JSON instead of plain text
        #[arg(long)]
        json: bool,
    },
}
"#,
    );
    let outcome = check(&mut p).unwrap();
    assert_eq!(
        outcome.candidates.len(),
        2,
        "expected both the variant and the field to surface, got {:#?}",
        outcome.candidates
    );

    let variant = outcome
        .candidates
        .iter()
        .find(|c| c.item_path == "crate::Command::Resolve")
        .expect("variant-level candidate");
    assert_eq!(variant.kind, ItemKind::Variant);

    let field = outcome
        .candidates
        .iter()
        .find(|c| c.item_path == "crate::Command::Resolve::json")
        .expect("field-level candidate");
    assert_eq!(field.kind, ItemKind::Field);
    assert_eq!(field.line, 6);
}

#[test]
fn comment_inside_a_closure_body_is_its_own_scope() {
    let mut p = Project::new();
    let c = candidate_for(
        &mut p,
        r#"
pub fn f(v: Vec<i32>) -> Vec<i32> {
    v.into_iter()
        .map(|x| {
            // double it
            x * 2
        })
        .collect()
}
"#,
        r#"
pub fn f(v: Vec<i32>) -> Vec<i32> {
    v.into_iter()
        .map(|x| {
            // double it
            x * 3
        })
        .collect()
}
"#,
    );
    assert_eq!(c.kind, ItemKind::Free);
    assert!(c.comment_text.contains("double it"));
}

#[test]
fn free_comment_before_a_closure_call_does_not_react_to_changes_inside_it() {
    let mut p = Project::new();
    p.write(
        "src/lib.rs",
        r#"
pub fn f(v: Vec<i32>) -> Vec<i32> {
    // process items
    v.into_iter()
        .map(|x| {
            x * 2
        })
        .collect()
}
"#,
    );
    init(&mut p, false).unwrap();

    p.write(
        "src/lib.rs",
        r#"
pub fn f(v: Vec<i32>) -> Vec<i32> {
    // process items
    v.into_iter()
        .map(|x| {
            x * 3
        })
        .collect()
}
"#,
    );
    let outcome = check(&mut p).unwrap();
    assert!(
        outcome.candidates.is_empty(),
        "the closure body has no comment of its own, got {:#?}",
        outcome.candidates
    );
}

#[test]
fn comment_inside_an_unsafe_block_is_its_own_scope() {
    let mut p = Project::new();
    let c = candidate_for(
        &mut p,
        r#"
pub fn f(a: i32) -> i32 {
    unsafe {
        // unsafe note
        a + 1
    }
}
"#,
        r#"
pub fn f(a: i32) -> i32 {
    unsafe {
        // unsafe note
        a + 2
    }
}
"#,
    );
    assert_eq!(c.kind, ItemKind::Free);
    assert!(c.comment_text.contains("unsafe note"));
}

#[test]
fn comment_inside_a_bare_scoping_block_is_its_own_scope() {
    let mut p = Project::new();
    let c = candidate_for(
        &mut p,
        r#"
pub fn f(a: i32) -> i32 {
    {
        // bare block note
        a + 1
    }
}
"#,
        r#"
pub fn f(a: i32) -> i32 {
    {
        // bare block note
        a + 2
    }
}
"#,
    );
    assert_eq!(c.kind, ItemKind::Free);
    assert!(c.comment_text.contains("bare block note"));
}

#[test]
fn comment_inside_control_flow_used_as_a_let_value_is_its_own_scope() {
    let mut p = Project::new();
    let c = candidate_for(
        &mut p,
        r#"
pub fn f(a: i32) -> i32 {
    let x = match a {
        0 => 0,
        _ => {
            // match-as-value note
            a + 1
        }
    };
    x
}
"#,
        r#"
pub fn f(a: i32) -> i32 {
    let x = match a {
        0 => 0,
        _ => {
            // match-as-value note
            a + 2
        }
    };
    x
}
"#,
    );
    assert_eq!(c.kind, ItemKind::Free);
    assert!(c.comment_text.contains("match-as-value note"));
}

#[test]
fn trait_scope_reacts_to_a_new_member_signature() {
    let mut p = Project::new();
    let c = candidate_for(
        &mut p,
        r#"
/// doc
pub trait T {
    fn a(&self);
}
"#,
        r#"
/// doc
pub trait T {
    fn a(&self);
    fn b(&self);
}
"#,
    );
    assert_eq!(c.kind, ItemKind::Trait);
    assert_eq!(c.item_path, "crate::T");
}

#[test]
fn impl_scope_ignores_method_body_edits() {
    let mut p = Project::new();
    p.write(
        "src/lib.rs",
        r#"
pub struct S;
/// doc
impl S {
    pub fn a(&self) -> i32 {
        1
    }
}
"#,
    );
    init(&mut p, false).unwrap();

    p.write(
        "src/lib.rs",
        r#"
pub struct S;
/// doc
impl S {
    pub fn a(&self) -> i32 {
        2
    }
}
"#,
    );
    let outcome = check(&mut p).unwrap();
    assert!(
        outcome.candidates.is_empty(),
        "impl doc should be shallow, got {:#?}",
        outcome.candidates
    );
}

#[test]
fn const_scope() {
    let mut p = Project::new();
    let c = candidate_for(
        &mut p,
        r#"
/// doc
pub const N: i32 = 1;
"#,
        r#"
/// doc
pub const N: i32 = 2;
"#,
    );
    assert_eq!(c.kind, ItemKind::Const);
}

#[test]
fn module_scope_is_shallow_over_item_signatures() {
    let mut p = Project::new();
    let c = candidate_for(
        &mut p,
        r#"
//! module doc
pub fn f() {}
"#,
        r#"
//! module doc
pub fn f(a: i32) {}
"#,
    );
    assert_eq!(c.kind, ItemKind::Module);
    assert_eq!(c.item_path, "crate");
}

#[test]
fn module_scope_ignores_unrelated_body_edits() {
    let mut p = Project::new();
    p.write(
        "src/lib.rs",
        r#"
//! module doc
pub fn f() -> i32 {
    1
}
"#,
    );
    init(&mut p, false).unwrap();

    p.write(
        "src/lib.rs",
        r#"
//! module doc
pub fn f() -> i32 {
    2
}
"#,
    );
    let outcome = check(&mut p).unwrap();
    assert!(
        outcome.candidates.is_empty(),
        "module doc should be shallow, got {:#?}",
        outcome.candidates
    );
}

#[test]
fn leading_free_comment_scopes_forward() {
    let mut p = Project::new();
    let c = candidate_for(
        &mut p,
        r#"
pub fn f() {
    // note
    let x = 1;
}
"#,
        r#"
pub fn f() {
    // note
    let x = 2;
}
"#,
    );
    assert_eq!(c.kind, ItemKind::Free);
    assert!(c.id.contains("#free:"), "id was {}", c.id);
    assert!(c.old_body_text.contains("let x = 1"));
}

#[test]
fn comment_inside_a_while_loop_is_its_own_scope() {
    let mut p = Project::new();
    let c = candidate_for(
        &mut p,
        r#"
pub fn f(n: i32) -> i32 {
    // outer note
    let mut total = 0;
    while total < n {
        // inner note
        let step = 1;
        total += step;
    }
    total
}
"#,
        r#"
pub fn f(n: i32) -> i32 {
    // outer note
    let mut total = 0;
    while total < n {
        // inner note
        let step = 2;
        total += step;
    }
    total
}
"#,
    );
    assert_eq!(c.kind, ItemKind::Free);
    assert!(
        c.comment_text.contains("inner note"),
        "comment was {}",
        c.comment_text
    );
    assert!(c.old_body_text.contains("let step = 1"));
}

#[test]
fn free_comment_before_a_loop_does_not_react_to_changes_deep_inside_it() {
    let mut p = Project::new();
    p.write(
        "src/lib.rs",
        r#"
pub fn f(n: i32) -> i32 {
    // outer note
    let mut total = 0;
    while total < n {
        let step = 1;
        total += step;
    }
    total
}
"#,
    );
    init(&mut p, false).unwrap();

    p.write(
        "src/lib.rs",
        r#"
pub fn f(n: i32) -> i32 {
    // outer note
    let mut total = 0;
    while total < n {
        let step = 2;
        total += step;
    }
    total
}
"#,
    );
    let outcome = check(&mut p).unwrap();
    assert!(
        outcome.candidates.is_empty(),
        "the loop body has no comment of its own, got {:#?}",
        outcome.candidates
    );
}

#[test]
fn comment_inside_an_else_if_branch_is_tracked() {
    let mut p = Project::new();
    let c = candidate_for(
        &mut p,
        r#"
pub fn f(x: i32) -> i32 {
    if x < 0 {
        0
    } else if x < 10 {
        // small note
        x + 1
    } else {
        x
    }
}
"#,
        r#"
pub fn f(x: i32) -> i32 {
    if x < 0 {
        0
    } else if x < 10 {
        // small note
        x + 2
    } else {
        x
    }
}
"#,
    );
    assert_eq!(c.kind, ItemKind::Free);
    assert!(c.comment_text.contains("small note"));
}

#[test]
fn comment_inside_a_match_arm_block_is_tracked() {
    let mut p = Project::new();
    let c = candidate_for(
        &mut p,
        r#"
pub fn f(x: i32) -> i32 {
    match x {
        0 => 0,
        _ => {
            // nonzero note
            x + 1
        }
    }
}
"#,
        r#"
pub fn f(x: i32) -> i32 {
    match x {
        0 => 0,
        _ => {
            // nonzero note
            x + 2
        }
    }
}
"#,
    );
    assert_eq!(c.kind, ItemKind::Free);
    assert!(c.comment_text.contains("nonzero note"));
}

#[test]
fn trailing_side_comment_scopes_backward() {
    let mut p = Project::new();
    let c = candidate_for(
        &mut p,
        r#"
pub fn f() {
    let x = 1; // note
    let _ = x;
}
"#,
        r#"
pub fn f() {
    let x = 2; // note
    let _ = x;
}
"#,
    );
    assert_eq!(c.kind, ItemKind::Free);
    assert!(c.id.contains("#trailing:"), "id was {}", c.id);
    assert!(c.old_body_text.contains("let x = 1"));
    assert!(!c.old_body_text.contains("let _"));
}

#[test]
fn reformatting_alone_never_creates_a_candidate() {
    let mut p = Project::new();
    p.write(
        "src/lib.rs",
        r#"
/// doc
pub fn f(a: i32, b: i32) -> i32 {
    a + b
}
"#,
    );
    init(&mut p, false).unwrap();

    p.write(
        "src/lib.rs",
        r#"
/// doc
pub fn f(a: i32, b: i32) -> i32 {
        a
        +
        b
}
"#,
    );
    let outcome = check(&mut p).unwrap();
    assert!(outcome.candidates.is_empty());
    assert_eq!(outcome.unchanged, 1);
}
