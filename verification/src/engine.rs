//! The decisions behind each command: what a baseline becomes, which
//! comments need a verdict, and what the verdicts change. The caller reads
//! and writes the stored files and scans the project; these functions take
//! and give the values.

use vstd::prelude::*;
use crate::extract::items_view;
use crate::known_issues::{issue_of, reconciled};
use crate::model::{
    entry_of, map_view, Candidate, ConfirmInput, EntryView, IssueView, ItemView, KnownIssue,
    KnownIssues, ScopedItem, Snapshot, SnapshotEntry, Verdict, KNOWN_ISSUES_VERSION,
    SNAPSHOT_VERSION,
};
use crate::snapshot::{
    candidates_of, count_change, fresh_ids, fresh_item, index_by_id, last_index,
    lemma_last_index, new_baseline, pruned_count, Change,
};
use crate::text::{append_str, string_from_chars};

verus! {

/// Why a command refused to run.
#[derive(Debug, Clone, Copy, PartialEq, Eq, Structural)]
pub enum EngineError {
    /// `init` found a baseline and was not forced.
    AlreadyInitialized,
    /// `check` found no baseline.
    NotInitialized,
}

/// The message shown for each error.
pub open spec fn error_message(e: EngineError) -> Seq<char> {
    match e {
        EngineError::AlreadyInitialized => ".rot/snapshot.json already exists - pass --force to re-baseline from scratch"@,
        EngineError::NotInitialized => "no .rot/snapshot.json found - run `rot init` first"@,
    }
}

impl EngineError {
    /// The message shown for this error.
    pub fn message(&self) -> (r: String)
        ensures
            r@ == error_message(*self),
    {
        let mut v: Vec<char> = Vec::new();
        match self {
            EngineError::AlreadyInitialized => append_str(
                &mut v,
                ".rot/snapshot.json already exists - pass --force to re-baseline from scratch",
            ),
            EngineError::NotInitialized => append_str(
                &mut v,
                "no .rot/snapshot.json found - run `rot init` first",
            ),
        }
        string_from_chars(&v)
    }
}

/// The baseline that records every fresh item (the last one of each id).
pub open spec fn baseline_of(items: Seq<ItemView>) -> Map<Seq<char>, EntryView> {
    Map::new(
        |id: Seq<char>| last_index(items).contains_key(id),
        |id: Seq<char>| entry_of(fresh_item(items, id)),
    )
}

/// A first baseline.
#[derive(Debug)]
pub struct InitOutcome {
    /// How many entries the baseline holds.
    pub entries: usize,
    /// The baseline to store.
    pub snapshot: Snapshot,
    /// The known issues to store: none.
    pub known_issues: KnownIssues,
}

/// Takes the first baseline of a project from its fresh scan, dated `now`;
/// refuses where a baseline exists, unless forced.
pub fn init(snapshot_exists: bool, force: bool, fresh: &[ScopedItem], now: u64) -> (r: Result<
    InitOutcome,
    EngineError,
>)
    ensures
        snapshot_exists && !force ==> r == Err::<InitOutcome, EngineError>(
            EngineError::AlreadyInitialized,
        ),
        !(snapshot_exists && !force) ==> (r matches Ok(o) && {
            let items = items_view(fresh@);
            &&& o.snapshot.version == SNAPSHOT_VERSION
            &&& o.snapshot.generated_at == now
            &&& o.snapshot.entries.wf()
            &&& map_view(o.snapshot.entries@) == baseline_of(items)
            &&& o.entries == last_index(items).dom().len()
            &&& o.known_issues.version == KNOWN_ISSUES_VERSION
            &&& o.known_issues.issues.wf()
            &&& o.known_issues.issues@ == Map::<Seq<char>, KnownIssue>::empty()
        }),
{
    if snapshot_exists && !force {
        return Err(EngineError::AlreadyInitialized);
    }
    let ghost items = items_view(fresh@);
    let mut snap = Snapshot::new_at(now);
    let flen = fresh.len();
    assert(items.len() == fresh@.len());
    let mut i: usize = 0;
    assert(map_view(snap.entries@) =~= baseline_of(items.take(0)));
    while i < fresh.len()
        invariant
            items == items_view(fresh@),
            items.len() == fresh@.len() <= usize::MAX,
            i <= fresh@.len(),
            snap.version == SNAPSHOT_VERSION,
            snap.generated_at == now,
            snap.entries.wf(),
            map_view(snap.entries@) == baseline_of(items.take(i as int)),
        decreases fresh@.len() - i,
    {
        let item = &fresh[i];
        let ghost before = items.take(i as int);
        let ghost after = items.take(i + 1);
        assert(after.drop_last() =~= before);
        assert(after.last() == item@);
        let entry = SnapshotEntry::from_item(item);
        let ghost m0 = snap.entries@;
        snap.entries.insert(item.id.clone(), entry);
        proof {
            assert(map_view(snap.entries@) =~= map_view(m0).insert(item@.id, entry@));
            assert(last_index(after) == last_index(before).insert(item@.id, i as usize));
            assert(baseline_of(after) =~= baseline_of(before).insert(item@.id, entry_of(item@))) by {
                assert forall|id: Seq<char>| #[trigger] baseline_of(after).contains_key(id)
                    implies baseline_of(after)[id] == baseline_of(before).insert(
                    item@.id,
                    entry_of(item@),
                )[id] by {
                    if id != item@.id {
                        lemma_last_index(before, id);
                        let j = last_index(before)[id] as int;
                        assert(after[j] == before[j]);
                    } else {
                        assert(after[i as int] == item@);
                    }
                }
            }
        }
        i = i + 1;
    }
    assert(items.take(fresh@.len() as int) =~= items);
    let entries = snap.entries.len();
    assert(snap.entries@.dom() =~= map_view(snap.entries@).dom());
    assert(snap.entries@.dom() =~= last_index(items).dom());
    Ok(InitOutcome { entries, snapshot: snap, known_issues: KnownIssues::new() })
}

/// The result of a check.
#[derive(Debug)]
pub struct CheckOutcome {
    /// Comments whose code changed while they did not, in id order.
    pub candidates: Vec<Candidate>,
    pub added: usize,
    pub updated: usize,
    pub unchanged: usize,
    pub pruned: usize,
    /// Known issues dropped because their item is gone or their comment
    /// was edited.
    pub issues_cleared: usize,
    /// The baseline to store.
    pub snapshot: Snapshot,
    /// The known issues to store.
    pub known_issues: KnownIssues,
}

/// Diffs a fresh scan against the stored baseline `old`, and returns
/// everything that doesn't need a manual verdict to be stored, the new
/// baseline dated `now`. Only real candidates are held back (their baseline
/// entries stay as they were).
pub fn check(
    snapshot_exists: bool,
    old: &Snapshot,
    fresh: &[ScopedItem],
    issues: KnownIssues,
    now: u64,
) -> (r: Result<CheckOutcome, EngineError>)
    requires
        old.entries.wf(),
        issues.issues.wf(),
    ensures
        !snapshot_exists ==> r == Err::<CheckOutcome, EngineError>(EngineError::NotInitialized),
        snapshot_exists ==> (r matches Ok(o) && {
            let before = map_view(old.entries@);
            let items = items_view(fresh@);
            let ids = fresh_ids(items);
            &&& o.snapshot.version == SNAPSHOT_VERSION
            &&& o.snapshot.generated_at == now
            &&& o.snapshot.entries.wf()
            &&& map_view(o.snapshot.entries@) == new_baseline(before, items)
            &&& o.candidates@.map_values(|c: Candidate| c@) == candidates_of(before, items, ids)
            &&& o.added == count_change(before, items, ids, Change::Added)
            &&& o.updated == count_change(before, items, ids, Change::Updated)
            &&& o.unchanged == count_change(before, items, ids, Change::Unchanged)
            &&& o.pruned == pruned_count(old.entries.key_seq(), items)
            &&& o.known_issues.version == issues.version
            &&& o.known_issues.issues.wf()
            &&& o.known_issues.issues@ == reconciled(issues.issues@, items)
            &&& o.issues_cleared == issues.issues@.dom().len()
                - o.known_issues.issues@.dom().len()
        }),
{
    if !snapshot_exists {
        return Err(EngineError::NotInitialized);
    }
    let diff = old.diff_at(fresh, now);
    let mut issues = issues;
    let issues_cleared = issues.reconcile(fresh);
    Ok(
        CheckOutcome {
            candidates: diff.candidates,
            added: diff.added,
            updated: diff.updated,
            unchanged: diff.unchanged,
            pruned: diff.pruned,
            issues_cleared,
            snapshot: diff.new_baseline,
            known_issues: issues,
        },
    )
}

/// The state of the baseline and known issues while verdicts are applied.
pub ghost struct ApplyState {
    pub entries: Map<Seq<char>, EntryView>,
    pub issues: Map<Seq<char>, IssueView>,
    pub updated: nat,
    pub flagged: nat,
    pub skipped: nat,
}

/// The reason recorded for an issue confirmed stale.
pub open spec fn confirmed_reason() -> Seq<char> {
    "confirmed stale by user"@
}

/// The verdicts, as plain values.
pub open spec fn verdicts_view(vs: Seq<ConfirmInput>) -> Seq<(Seq<char>, Verdict)> {
    vs.map_values(|v: ConfirmInput| (v.id@, v.verdict))
}

/// Applies verdict `v` (an id and a verdict) to `st`: a verdict for an id
/// that the fresh scan lacks is skipped; otherwise the entry takes the fresh
/// item, and a "yes" clears the id's known issue while a "no" flags it with
/// the old and new code.
pub open spec fn apply_one(
    st: ApplyState,
    items: Seq<ItemView>,
    v: (Seq<char>, Verdict),
    now: u64,
) -> ApplyState {
    let id = v.0;
    if !last_index(items).contains_key(id) {
        ApplyState { skipped: st.skipped + 1, ..st }
    } else {
        let item = fresh_item(items, id);
        let entries = st.entries.insert(id, entry_of(item));
        match v.1 {
            Verdict::Yes => ApplyState {
                entries,
                issues: st.issues.remove(id),
                updated: st.updated + 1,
                ..st
            },
            Verdict::No => {
                let old_body = if st.entries.contains_key(id) {
                    st.entries[id].body_text
                } else {
                    Seq::empty()
                };
                ApplyState {
                    entries,
                    issues: st.issues.insert(
                        id,
                        issue_of(
                            item.kind,
                            item.file,
                            item.item_path,
                            now,
                            item.comment_text,
                            old_body,
                            item.body_text,
                            confirmed_reason(),
                        ),
                    ),
                    updated: st.updated + 1,
                    flagged: st.flagged + 1,
                    ..st
                }
            },
        }
    }
}

/// Applies the verdicts in order.
pub open spec fn apply_all(
    st: ApplyState,
    items: Seq<ItemView>,
    vs: Seq<(Seq<char>, Verdict)>,
    now: u64,
) -> ApplyState
    decreases vs.len(),
{
    if vs.len() == 0 {
        st
    } else {
        apply_one(apply_all(st, items, vs.drop_last(), now), items, vs.last(), now)
    }
}

/// The result of applying verdicts.
#[derive(Debug)]
pub struct ApplyOutcome {
    pub updated: usize,
    pub flagged: usize,
    pub skipped_missing: usize,
    /// The baseline to store.
    pub snapshot: Snapshot,
    /// The known issues to store.
    pub known_issues: KnownIssues,
}

/// Applies verdicts to the current baseline `snap`, given a fresh scan of
/// the files that the verdicts' ids name; flags are dated `now`.
pub fn apply_verdicts(
    snap: Snapshot,
    fresh: &[ScopedItem],
    issues: KnownIssues,
    verdicts: &[ConfirmInput],
    now: u64,
) -> (r: ApplyOutcome)
    requires
        snap.entries.wf(),
        issues.issues.wf(),
    ensures
        ({
            let start = ApplyState {
                entries: map_view(snap.entries@),
                issues: map_view(issues.issues@),
                updated: 0,
                flagged: 0,
                skipped: 0,
            };
            let end = apply_all(start, items_view(fresh@), verdicts_view(verdicts@), now);
            &&& r.snapshot.version == snap.version
            &&& r.snapshot.generated_at == snap.generated_at
            &&& r.snapshot.entries.wf()
            &&& map_view(r.snapshot.entries@) == end.entries
            &&& r.known_issues.version == issues.version
            &&& r.known_issues.issues.wf()
            &&& map_view(r.known_issues.issues@) == end.issues
            &&& r.updated == end.updated
            &&& r.flagged == end.flagged
            &&& r.skipped_missing == end.skipped
        }),
{
    let ghost items = items_view(fresh@);
    let ghost vs = verdicts_view(verdicts@);
    let ghost start = ApplyState {
        entries: map_view(snap.entries@),
        issues: map_view(issues.issues@),
        updated: 0,
        flagged: 0,
        skipped: 0,
    };
    let mut snap = snap;
    let mut issues = issues;
    let index = index_by_id(fresh);
    let flen = fresh.len();
    assert(items.len() == fresh@.len());
    let mut updated: usize = 0;
    let mut flagged: usize = 0;
    let mut skipped_missing: usize = 0;
    let ghost version = snap.version;
    let ghost generated_at = snap.generated_at;
    let ghost issues_version = issues.version;
    let mut i: usize = 0;
    assert(vs.take(0) =~= Seq::<(Seq<char>, Verdict)>::empty());
    while i < verdicts.len()
        invariant
            items == items_view(fresh@),
            items.len() == fresh@.len() <= usize::MAX,
            vs == verdicts_view(verdicts@),
            index.wf(),
            index@ == last_index(items),
            i <= verdicts@.len(),
            snap.version == version,
            snap.generated_at == generated_at,
            issues.version == issues_version,
            snap.entries.wf(),
            issues.issues.wf(),
            updated + flagged + skipped_missing <= 2 * i,
            updated <= i,
            flagged <= i,
            skipped_missing <= i,
            ({
                let st = apply_all(start, items, vs.take(i as int), now);
                &&& map_view(snap.entries@) == st.entries
                &&& map_view(issues.issues@) == st.issues
                &&& updated == st.updated
                &&& flagged == st.flagged
                &&& skipped_missing == st.skipped
            }),
        decreases verdicts@.len() - i,
    {
        let v = &verdicts[i];
        let ghost t = vs.take(i + 1);
        assert(t.drop_last() =~= vs.take(i as int));
        assert(t.last() == (v.id@, v.verdict));
        match index.get(v.id.as_str()) {
            None => {
                skipped_missing = skipped_missing + 1;
            },
            Some(p) => {
                proof {
                    lemma_last_index(items, v.id@);
                }
                let item = &fresh[*p];
                assert(item@ == fresh_item(items, v.id@));
                let ghost entries_before = map_view(snap.entries@);
                let old_body: String = match snap.entries.get(v.id.as_str()) {
                    Some(e) => e.body_text.clone(),
                    None => String::new(),
                };
                snap.entries.insert(v.id.clone(), SnapshotEntry::from_item(item));
                assert(map_view(snap.entries@) =~= entries_before.insert(v.id@, entry_of(item@)));
                updated = updated + 1;
                match v.verdict {
                    Verdict::Yes => {
                        let ghost issues_before = issues.issues@;
                        let _ = issues.clear(v.id.as_str());
                        assert(map_view(issues.issues@) =~= map_view(issues_before).remove(v.id@));
                    },
                    Verdict::No => {
                        issues.flag_at(
                            v.id.as_str(),
                            item.kind,
                            item.file.as_str(),
                            item.item_path.as_str(),
                            item.comment_text.as_str(),
                            old_body.as_str(),
                            item.body_text.as_str(),
                            "confirmed stale by user",
                            now,
                        );
                        flagged = flagged + 1;
                    },
                }
            },
        }
        i = i + 1;
    }
    assert(vs.take(verdicts@.len() as int) =~= vs);
    ApplyOutcome { updated, flagged, skipped_missing, snapshot: snap, known_issues: issues }
}

/// The known issues, in id order.
pub fn status(issues: &KnownIssues) -> (r: Vec<(String, KnownIssue)>)
    requires
        issues.issues.wf(),
    ensures
        r@.len() == issues.issues.key_seq().len(),
        forall|i: int|
            0 <= i < r@.len() ==> {
                &&& (#[trigger] r@[i]).0@ == issues.issues.key_seq()[i]
                &&& r@[i].1 == issues.issues@[issues.issues.key_seq()[i]]
            },
{
    let n = issues.issues.len();
    let mut r: Vec<(String, KnownIssue)> = Vec::new();
    let mut k: usize = 0;
    while k < n
        invariant
            issues.issues.wf(),
            n == issues.issues.key_seq().len(),
            k <= n,
            r@.len() == k,
            forall|i: int|
                0 <= i < k ==> {
                    &&& (#[trigger] r@[i]).0@ == issues.issues.key_seq()[i]
                    &&& r@[i].1 == issues.issues@[issues.issues.key_seq()[i]]
                },
        decreases n - k,
    {
        proof {
            issues.issues.lemma_at(k as int);
        }
        let id = issues.issues.key_at(k).clone();
        let issue = issues.issues.val_at(k).clone();
        r.push((id, issue));
        k = k + 1;
    }
    r
}

/// Clears the known issue `id`; whether there was one.
pub fn resolve(issues: &mut KnownIssues, id: &str) -> (r: bool)
    requires
        old(issues).issues.wf(),
    ensures
        final(issues).issues.wf(),
        final(issues).version == old(issues).version,
        final(issues).issues@ == old(issues).issues@.remove(id@),
        r == old(issues).issues@.contains_key(id@),
{
    issues.clear(id)
}

/// The verdicts given by answering, in order, whether each candidate's
/// comment is still accurate: "yes" for an accurate one, "no" otherwise.
pub open spec fn verdicts_for(cands: Seq<Candidate>, answers: Seq<bool>) -> Seq<(Seq<char>, Verdict)> {
    Seq::new(
        answers.len(),
        |i: int|
            (
                cands[i].id@,
                if answers[i] {
                    Verdict::Yes
                } else {
                    Verdict::No
                },
            ),
    )
}

/// Turns the answers to "is this comment still accurate?", one for each of
/// the first candidates in order, into verdicts.
pub fn verdicts_from_answers(candidates: &[Candidate], answers: &[bool]) -> (r: Vec<ConfirmInput>)
    requires
        answers@.len() <= candidates@.len(),
    ensures
        verdicts_view(r@) == verdicts_for(candidates@, answers@),
{
    let mut r: Vec<ConfirmInput> = Vec::new();
    let mut i: usize = 0;
    while i < answers.len()
        invariant
            answers@.len() <= candidates@.len(),
            i <= answers@.len(),
            verdicts_view(r@) == verdicts_for(candidates@, answers@).take(i as int),
        decreases answers@.len() - i,
    {
        let verdict = if answers[i] {
            Verdict::Yes
        } else {
            Verdict::No
        };
        let v = ConfirmInput { id: candidates[i].id.clone(), verdict };
        proof {
            assert(verdicts_view(r@.push(v)) =~= verdicts_view(r@).push((v.id@, v.verdict)));
            assert(verdicts_for(candidates@, answers@).take(i + 1) =~= verdicts_for(
                candidates@,
                answers@,
            ).take(i as int).push((candidates@[i as int].id@, verdict)));
        }
        r.push(v);
        i = i + 1;
    }
    assert(verdicts_for(candidates@, answers@).take(answers@.len() as int) =~= verdicts_for(
        candidates@,
        answers@,
    ));
    r
}

} // verus!
