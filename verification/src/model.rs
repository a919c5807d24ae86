//! The data the tool records: comment scopes, baselines and known issues.

use vstd::prelude::*;
use crate::hashing::{hash_of, hash_str};
use crate::idmap::IdMap;

verus! {

/// Kind of syntax construct a scope entry is attached to.
#[derive(Debug, Clone, Copy, PartialEq, Eq, Structural, PartialOrd, Ord, Hash)]
pub enum ItemKind {
    Function,
    Struct,
    Enum,
    Union,
    Trait,
    Impl,
    Const,
    Static,
    TypeAlias,
    Module,
    Field,
    Variant,
    Macro,
    Extern,
    Free,
}

/// The human-readable name of each kind of item.
pub open spec fn kind_label(k: ItemKind) -> Seq<char> {
    match k {
        ItemKind::Function => "function"@,
        ItemKind::Struct => "struct"@,
        ItemKind::Enum => "enum"@,
        ItemKind::Union => "union"@,
        ItemKind::Trait => "trait"@,
        ItemKind::Impl => "impl block"@,
        ItemKind::Const => "const"@,
        ItemKind::Static => "static"@,
        ItemKind::TypeAlias => "type alias"@,
        ItemKind::Module => "module"@,
        ItemKind::Field => "field"@,
        ItemKind::Variant => "variant"@,
        ItemKind::Macro => "macro"@,
        ItemKind::Extern => "extern block"@,
        ItemKind::Free => "code"@,
    }
}

impl ItemKind {
    /// The human-readable name of this kind of item.
    pub fn label(self) -> (r: &'static str)
        ensures
            r@ == kind_label(self),
    {
        match self {
            ItemKind::Function => "function",
            ItemKind::Struct => "struct",
            ItemKind::Enum => "enum",
            ItemKind::Union => "union",
            ItemKind::Trait => "trait",
            ItemKind::Impl => "impl block",
            ItemKind::Const => "const",
            ItemKind::Static => "static",
            ItemKind::TypeAlias => "type alias",
            ItemKind::Module => "module",
            ItemKind::Field => "field",
            ItemKind::Variant => "variant",
            ItemKind::Macro => "macro",
            ItemKind::Extern => "extern block",
            ItemKind::Free => "code",
        }
    }
}

/// Where a comment's text came from, syntactically.
#[derive(Debug, Clone, Copy, PartialEq, Eq, Structural, PartialOrd, Ord, Hash)]
pub enum CommentKind {
    /// `///` or `/** */`
    OuterDoc,
    /// `//!` or `/*! */`
    InnerDoc,
    /// Plain `//` line comment.
    Line,
    /// Plain `/* */` block comment.
    Block,
}

/// The content of a comment scope, as plain values.
pub ghost struct ItemView {
    pub id: Seq<char>,
    pub kind: ItemKind,
    pub file: Seq<char>,
    pub item_path: Seq<char>,
    pub comment_kind: CommentKind,
    pub comment_text: Seq<char>,
    pub body_text: Seq<char>,
    pub line: int,
}

/// A comment together with the code it documents.
#[derive(Debug)]
pub struct ScopedItem {
    pub id: String,
    pub kind: ItemKind,
    pub file: String,
    pub item_path: String,
    pub comment_kind: CommentKind,
    pub comment_text: String,
    pub body_text: String,
    pub line: usize,
}

impl View for ScopedItem {
    type V = ItemView;

    open spec fn view(&self) -> ItemView {
        ItemView {
            id: self.id@,
            kind: self.kind,
            file: self.file@,
            item_path: self.item_path@,
            comment_kind: self.comment_kind,
            comment_text: self.comment_text@,
            body_text: self.body_text@,
            line: self.line as int,
        }
    }
}

impl Clone for ScopedItem {
    fn clone(&self) -> (r: Self)
        ensures
            r == *self,
    {
        ScopedItem {
            id: self.id.clone(),
            kind: self.kind,
            file: self.file.clone(),
            item_path: self.item_path.clone(),
            comment_kind: self.comment_kind,
            comment_text: self.comment_text.clone(),
            body_text: self.body_text.clone(),
            line: self.line,
        }
    }
}

impl ScopedItem {
    #[must_use]
    pub fn comment_hash(&self) -> (r: String)
        ensures
            r@ == hash_of(self.comment_text@),
    {
        hash_str(self.comment_text.as_str())
    }

    #[must_use]
    pub fn body_hash(&self) -> (r: String)
        ensures
            r@ == hash_of(self.body_text@),
    {
        hash_str(self.body_text.as_str())
    }
}

/// A baseline entry, as plain values.
pub ghost struct EntryView {
    pub kind: ItemKind,
    pub file: Seq<char>,
    pub item_path: Seq<char>,
    pub comment_kind: CommentKind,
    pub comment_text: Seq<char>,
    pub comment_hash: Seq<char>,
    pub body_text: Seq<char>,
    pub body_hash: Seq<char>,
}

/// The baseline record of one comment scope.
#[derive(Debug)]
pub struct SnapshotEntry {
    pub kind: ItemKind,
    pub file: String,
    pub item_path: String,
    pub comment_kind: CommentKind,
    pub comment_text: String,
    pub comment_hash: String,
    pub body_text: String,
    pub body_hash: String,
}

impl View for SnapshotEntry {
    type V = EntryView;

    open spec fn view(&self) -> EntryView {
        EntryView {
            kind: self.kind,
            file: self.file@,
            item_path: self.item_path@,
            comment_kind: self.comment_kind,
            comment_text: self.comment_text@,
            comment_hash: self.comment_hash@,
            body_text: self.body_text@,
            body_hash: self.body_hash@,
        }
    }
}

impl Clone for SnapshotEntry {
    fn clone(&self) -> (r: Self)
        ensures
            r == *self,
    {
        SnapshotEntry {
            kind: self.kind,
            file: self.file.clone(),
            item_path: self.item_path.clone(),
            comment_kind: self.comment_kind,
            comment_text: self.comment_text.clone(),
            comment_hash: self.comment_hash.clone(),
            body_text: self.body_text.clone(),
            body_hash: self.body_hash.clone(),
        }
    }
}

/// The baseline entry that records `item`, with the hashes of its texts.
pub open spec fn entry_of(item: ItemView) -> EntryView {
    EntryView {
        kind: item.kind,
        file: item.file,
        item_path: item.item_path,
        comment_kind: item.comment_kind,
        comment_text: item.comment_text,
        comment_hash: hash_of(item.comment_text),
        body_text: item.body_text,
        body_hash: hash_of(item.body_text),
    }
}

impl SnapshotEntry {
    /// The baseline entry that records `item`.
    pub fn from_item(item: &ScopedItem) -> (r: SnapshotEntry)
        ensures
            r@ == entry_of(item@),
    {
        SnapshotEntry {
            kind: item.kind,
            file: item.file.clone(),
            item_path: item.item_path.clone(),
            comment_kind: item.comment_kind,
            comment_text: item.comment_text.clone(),
            comment_hash: item.comment_hash(),
            body_text: item.body_text.clone(),
            body_hash: item.body_hash(),
        }
    }
}

/// The views of the values of a map.
pub open spec fn map_view<V: View>(m: Map<Seq<char>, V>) -> Map<Seq<char>, V::V> {
    m.map_values(|v: V| v@)
}

/// A baseline: every comment scope of the project with its hashes, by id.
#[derive(Debug)]
pub struct Snapshot {
    pub version: u32,
    pub generated_at: u64,
    pub entries: IdMap<SnapshotEntry>,
}

/// The format version that this library writes.
pub const SNAPSHOT_VERSION: u32 = 1;

impl Snapshot {
    pub const CURRENT_VERSION: u32 = 1;

    /// An empty baseline taken now.
    #[must_use]
    pub fn new() -> (r: Snapshot)
        ensures
            r.version == SNAPSHOT_VERSION,
            r.entries.wf(),
            r.entries@ == Map::<Seq<char>, SnapshotEntry>::empty(),
    {
        Self::new_at(now_unix())
    }

    /// An empty baseline taken at time `now` (seconds since the Unix epoch).
    #[must_use]
    pub fn new_at(now: u64) -> (r: Snapshot)
        ensures
            r.version == SNAPSHOT_VERSION,
            r.generated_at == now,
            r.entries.wf(),
            r.entries@ == Map::<Seq<char>, SnapshotEntry>::empty(),
    {
        Snapshot { version: Self::CURRENT_VERSION, generated_at: now, entries: IdMap::new() }
    }
}

/// The current time in seconds since the Unix epoch, or 0 where the clock
/// reads earlier.
#[verifier::external_body]
#[must_use]
pub fn now_unix() -> u64 {
    std::time::SystemTime::now().duration_since(std::time::UNIX_EPOCH).map_or(0, |d| d.as_secs())
}

/// A stale-comment candidate, as plain values.
pub ghost struct CandidateView {
    pub id: Seq<char>,
    pub kind: ItemKind,
    pub file: Seq<char>,
    pub item_path: Seq<char>,
    pub line: int,
    pub comment_kind: CommentKind,
    pub comment_text: Seq<char>,
    pub old_body_text: Seq<char>,
    pub new_body_text: Seq<char>,
    pub reason: Seq<char>,
}

/// A stale-comment candidate
#[derive(Debug)]
pub struct Candidate {
    pub id: String,
    pub kind: ItemKind,
    pub file: String,
    pub item_path: String,
    pub line: usize,
    pub comment_kind: CommentKind,
    pub comment_text: String,
    pub old_body_text: String,
    pub new_body_text: String,
    pub reason: String,
}

impl View for Candidate {
    type V = CandidateView;

    open spec fn view(&self) -> CandidateView {
        CandidateView {
            id: self.id@,
            kind: self.kind,
            file: self.file@,
            item_path: self.item_path@,
            line: self.line as int,
            comment_kind: self.comment_kind,
            comment_text: self.comment_text@,
            old_body_text: self.old_body_text@,
            new_body_text: self.new_body_text@,
            reason: self.reason@,
        }
    }
}

/// The user's answer about one candidate.
#[derive(Debug, Clone, Copy, PartialEq, Eq, Structural)]
pub enum Verdict {
    /// The comment is still accurate
    Yes,
    /// The comment is stale
    No,
}

/// A verdict for the candidate with id `id`.
#[derive(Debug)]
pub struct ConfirmInput {
    pub id: String,
    pub verdict: Verdict,
}

/// A known issue, as plain values.
pub ghost struct IssueView {
    pub kind: ItemKind,
    pub file: Seq<char>,
    pub item_path: Seq<char>,
    pub flagged_at: u64,
    pub comment_text: Seq<char>,
    pub old_body_text: Seq<char>,
    pub new_body_text: Seq<char>,
    pub reason: Seq<char>,
}

/// A comment that the user confirmed stale and that is not fixed yet.
#[derive(Debug)]
pub struct KnownIssue {
    pub kind: ItemKind,
    pub file: String,
    pub item_path: String,
    pub flagged_at: u64,
    pub comment_text: String,
    pub old_body_text: String,
    pub new_body_text: String,
    pub reason: String,
}

impl View for KnownIssue {
    type V = IssueView;

    open spec fn view(&self) -> IssueView {
        IssueView {
            kind: self.kind,
            file: self.file@,
            item_path: self.item_path@,
            flagged_at: self.flagged_at,
            comment_text: self.comment_text@,
            old_body_text: self.old_body_text@,
            new_body_text: self.new_body_text@,
            reason: self.reason@,
        }
    }
}

impl Clone for KnownIssue {
    fn clone(&self) -> (r: Self)
        ensures
            r == *self,
    {
        KnownIssue {
            kind: self.kind,
            file: self.file.clone(),
            item_path: self.item_path.clone(),
            flagged_at: self.flagged_at,
            comment_text: self.comment_text.clone(),
            old_body_text: self.old_body_text.clone(),
            new_body_text: self.new_body_text.clone(),
            reason: self.reason.clone(),
        }
    }
}

/// The known issues of a project, by id.
#[derive(Debug)]
pub struct KnownIssues {
    pub version: u32,
    pub issues: IdMap<KnownIssue>,
}

/// The format version of the known-issue file that this library writes.
pub const KNOWN_ISSUES_VERSION: u32 = 1;

impl KnownIssues {
    pub const CURRENT_VERSION: u32 = 1;

    /// No known issues.
    #[must_use]
    pub fn new() -> (r: KnownIssues)
        ensures
            r.version == KNOWN_ISSUES_VERSION,
            r.issues.wf(),
            r.issues@ == Map::<Seq<char>, KnownIssue>::empty(),
    {
        KnownIssues { version: Self::CURRENT_VERSION, issues: IdMap::new() }
    }
}

} // verus!
