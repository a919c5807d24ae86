//! Comparing a fresh scan with the stored baseline.

use vstd::prelude::*;
use crate::extract::items_view;
use crate::hashing::hash_of;
use crate::idmap::{sorted_ids, strictly_sorted, IdMap};
use crate::model::{
    entry_of, kind_label, map_view, Candidate, CandidateView, EntryView, ItemView, ScopedItem,
    now_unix, Snapshot, SnapshotEntry, SNAPSHOT_VERSION,
};
use crate::text::{append_str, chars_of, str_eq, string_from_chars};

verus! {

/// For each id, the position of the last item with that id.
pub open spec fn last_index(items: Seq<ItemView>) -> Map<Seq<char>, usize>
    decreases items.len(),
{
    if items.len() == 0 {
        Map::empty()
    } else {
        last_index(items.drop_last()).insert(items.last().id, (items.len() - 1) as usize)
    }
}

/// The ids of the items, in increasing order, each once.
pub open spec fn fresh_ids(items: Seq<ItemView>) -> Seq<Seq<char>> {
    sorted_ids(last_index(items).dom())
}

/// The last item with id `id`.
pub open spec fn fresh_item(items: Seq<ItemView>, id: Seq<char>) -> ItemView {
    items[last_index(items)[id] as int]
}

/// The last position of an id holds an item with that id.
pub proof fn lemma_last_index(items: Seq<ItemView>, id: Seq<char>)
    requires
        last_index(items).contains_key(id),
        items.len() <= usize::MAX,
    ensures
        0 <= last_index(items)[id] < items.len(),
        items[last_index(items)[id] as int].id == id,
    decreases items.len(),
{
    if items.len() > 0 && items.last().id != id {
        lemma_last_index(items.drop_last(), id);
        let i = last_index(items.drop_last())[id] as int;
        assert(items.drop_last()[i] == items[i]);
    }
}

/// What a fresh scan did to a baseline entry.
#[derive(PartialEq, Eq, Structural, Clone, Copy, Debug)]
pub enum Change {
    /// No entry had this id.
    Added,
    /// The code changed but the comment did not.
    Stale,
    /// The comment changed (and maybe the code).
    Updated,
    /// Neither changed.
    Unchanged,
}

/// How item `item` compares with the baseline `old`.
pub open spec fn classify(old: Map<Seq<char>, EntryView>, item: ItemView) -> Change {
    if !old.contains_key(item.id) {
        Change::Added
    } else {
        let prev = old[item.id];
        let ch = hash_of(item.comment_text);
        let bh = hash_of(item.body_text);
        if prev.comment_hash == ch && prev.body_hash != bh {
            Change::Stale
        } else if prev.comment_hash != ch || prev.body_hash != bh {
            Change::Updated
        } else {
            Change::Unchanged
        }
    }
}

/// How many of `ids` compare as `c`.
pub open spec fn count_change(
    old: Map<Seq<char>, EntryView>,
    items: Seq<ItemView>,
    ids: Seq<Seq<char>>,
    c: Change,
) -> nat
    decreases ids.len(),
{
    if ids.len() == 0 {
        0
    } else {
        count_change(old, items, ids.drop_last(), c) + if classify(
            old,
            fresh_item(items, ids.last()),
        ) == c {
            1nat
        } else {
            0nat
        }
    }
}

/// The reason given for every candidate.
pub open spec fn stale_reason(item: ItemView) -> Seq<char> {
    kind_label(item.kind) + " changed but its comment was not updated"@
}

/// The candidate raised for `item`, whose baseline entry is `prev`.
pub open spec fn candidate_of(item: ItemView, prev: EntryView) -> CandidateView {
    CandidateView {
        id: item.id,
        kind: item.kind,
        file: item.file,
        item_path: item.item_path,
        line: item.line,
        comment_kind: item.comment_kind,
        comment_text: item.comment_text,
        old_body_text: prev.body_text,
        new_body_text: item.body_text,
        reason: stale_reason(item),
    }
}

/// The candidates among `ids`, in order.
pub open spec fn candidates_of(
    old: Map<Seq<char>, EntryView>,
    items: Seq<ItemView>,
    ids: Seq<Seq<char>>,
) -> Seq<CandidateView>
    decreases ids.len(),
{
    if ids.len() == 0 {
        Seq::empty()
    } else {
        let rest = candidates_of(old, items, ids.drop_last());
        let item = fresh_item(items, ids.last());
        if classify(old, item) == Change::Stale {
            rest.push(candidate_of(item, old[item.id]))
        } else {
            rest
        }
    }
}

/// The baseline entry kept for id `id`: the old entry for a candidate
/// (which still waits for a verdict), the fresh item otherwise.
pub open spec fn new_entry(old: Map<Seq<char>, EntryView>, items: Seq<ItemView>, id: Seq<char>) -> EntryView {
    let item = fresh_item(items, id);
    if classify(old, item) == Change::Stale {
        old[id]
    } else {
        entry_of(item)
    }
}

/// The new baseline: one entry for every fresh id.
pub open spec fn new_baseline(old: Map<Seq<char>, EntryView>, items: Seq<ItemView>) -> Map<
    Seq<char>,
    EntryView,
> {
    Map::new(|id: Seq<char>| last_index(items).contains_key(id), |id: Seq<char>| new_entry(old, items, id))
}

/// How many of `keys` no fresh item has.
pub open spec fn pruned_count(keys: Seq<Seq<char>>, items: Seq<ItemView>) -> nat
    decreases keys.len(),
{
    if keys.len() == 0 {
        0
    } else {
        pruned_count(keys.drop_last(), items) + if last_index(items).contains_key(keys.last()) {
            0nat
        } else {
            1nat
        }
    }
}

/// The result of comparing a fresh scan with a baseline.
pub struct DiffResult {
    /// The comments whose code changed while they did not.
    pub candidates: Vec<Candidate>,
    pub new_baseline: Snapshot,
    pub added: usize,
    pub updated: usize,
    pub unchanged: usize,
    pub pruned: usize,
}

/// `r` is what comparing the scan `fresh` with the baseline `old` gives: the
/// new baseline, the candidates and the counts.
pub open spec fn diffs_to(old: Snapshot, fresh: Seq<ScopedItem>, r: DiffResult) -> bool {
    let before = map_view(old.entries@);
    let items = items_view(fresh);
    let ids = fresh_ids(items);
    &&& r.new_baseline.version == SNAPSHOT_VERSION
    &&& r.new_baseline.entries.wf()
    &&& map_view(r.new_baseline.entries@) == new_baseline(before, items)
    &&& r.candidates@.map_values(|c: Candidate| c@) == candidates_of(before, items, ids)
    &&& r.added == count_change(before, items, ids, Change::Added)
    &&& r.updated == count_change(before, items, ids, Change::Updated)
    &&& r.unchanged == count_change(before, items, ids, Change::Unchanged)
    &&& r.pruned == pruned_count(old.entries.key_seq(), items)
}

/// The position of the last item with each id.
pub fn index_by_id(fresh: &[ScopedItem]) -> (r: IdMap<usize>)
    ensures
        r.wf(),
        r@ == last_index(items_view(fresh@)),
{
    let ghost items = items_view(fresh@);
    let mut r: IdMap<usize> = IdMap::new();
    let mut i: usize = 0;
    while i < fresh.len()
        invariant
            items == items_view(fresh@),
            i <= fresh@.len(),
            r.wf(),
            r@ == last_index(items.take(i as int)),
        decreases fresh@.len() - i,
    {
        assert(items.take(i + 1).drop_last() =~= items.take(i as int));
        assert(items.take(i + 1).last() == fresh@[i as int]@);
        r.insert(fresh[i].id.clone(), i);
        i = i + 1;
    }
    assert(items.take(fresh@.len() as int) =~= items);
    r
}

/// The reason text for an item of kind `item.kind`.
fn stale_reason_exec(item: &ScopedItem) -> (r: String)
    ensures
        r@ == stale_reason(item@),
{
    let mut v = chars_of(item.kind.label());
    append_str(&mut v, " changed but its comment was not updated");
    string_from_chars(&v)
}

impl Snapshot {
    /// Compares a fresh scan against this baseline. An entry becomes a
    /// candidate only when its comment hash is unchanged but its body hash
    /// isn't. The new baseline is dated now.
    #[must_use]
    pub fn diff(&self, fresh: &[ScopedItem]) -> (r: DiffResult)
        requires
            self.entries.wf(),
        ensures
            diffs_to(*self, fresh@, r),
    {
        self.diff_at(fresh, now_unix())
    }

    /// Compares a fresh scan against this baseline, as `diff` does, dating
    /// the new baseline `now`.
    #[must_use]
    pub fn diff_at(&self, fresh: &[ScopedItem], now: u64) -> (r: DiffResult)
        requires
            self.entries.wf(),
        ensures
            diffs_to(*self, fresh@, r),
            r.new_baseline.generated_at == now,
    {
        let ghost old = map_view(self.entries@);
        let ghost items = items_view(fresh@);
        let index = index_by_id(fresh);
        proof {
            index.lemma_dom();
        }
        let ghost ids = fresh_ids(items);
        assert(index.key_seq() == ids);
        let flen = fresh.len();
        assert(items.len() == fresh@.len());
        let mut entries: IdMap<SnapshotEntry> = IdMap::new();
        let mut candidates: Vec<Candidate> = Vec::new();
        let mut added: usize = 0;
        let mut updated: usize = 0;
        let mut unchanged: usize = 0;
        let n = index.len();
        let mut k: usize = 0;
        assert(ids.take(0) =~= Seq::<Seq<char>>::empty());
        assert(candidates@.map_values(|c: Candidate| c@) =~= Seq::<CandidateView>::empty());
        while k < n
            invariant
                self.entries.wf(),
                old == map_view(self.entries@),
                items == items_view(fresh@),
                items.len() == fresh@.len() <= usize::MAX,
                index.wf(),
                index@ == last_index(items),
                index.key_seq() == ids,
                n == ids.len(),
                k <= n,
                entries.wf(),
                entries.key_seq() == ids.take(k as int),
                forall|j: int|
                    0 <= j < k ==> (#[trigger] entries.val_seq()[j])@ == new_entry(
                        old,
                        items,
                        ids[j],
                    ),
                candidates@.map_values(|c: Candidate| c@) == candidates_of(
                    old,
                    items,
                    ids.take(k as int),
                ),
                added == count_change(old, items, ids.take(k as int), Change::Added),
                updated == count_change(old, items, ids.take(k as int), Change::Updated),
                unchanged == count_change(old, items, ids.take(k as int), Change::Unchanged),
                added + updated + unchanged + candidates@.len() == k,
            decreases n - k,
        {
            let id = index.key_at(k);
            let i = *index.val_at(k);
            proof {
                index.lemma_at(k as int);
                lemma_last_index(items, ids[k as int]);
            }
            let item = &fresh[i];
            assert(item@ == fresh_item(items, ids[k as int]));
            let ghost t = ids.take(k + 1);
            assert(t.drop_last() =~= ids.take(k as int));
            assert(t.last() == ids[k as int]);
            let comment_hash = item.comment_hash();
            let body_hash = item.body_hash();
            proof {
                assert(strictly_sorted(ids));
                assert forall|j: int| 0 <= j < entries.key_seq().len() implies crate::text::text_lt(
                    #[trigger] entries.key_seq()[j],
                    id@,
                ) by {
                    assert(entries.key_seq()[j] == ids[j]);
                }
            }
            let ghost before = candidates@;
            match self.entries.get(id.as_str()) {
                None => {
                    added = added + 1;
                    entries.push_last(id.clone(), SnapshotEntry::from_item(item));
                },
                Some(prev) => {
                    proof {
                        assert(old[id@] == prev@);
                    }
                    let same_comment = str_eq(prev.comment_hash.as_str(), comment_hash.as_str());
                    let same_body = str_eq(prev.body_hash.as_str(), body_hash.as_str());
                    if same_comment && !same_body {
                        entries.push_last(id.clone(), prev.clone());
                        let c = Candidate {
                            id: id.clone(),
                            kind: item.kind,
                            file: item.file.clone(),
                            item_path: item.item_path.clone(),
                            line: item.line,
                            comment_kind: item.comment_kind,
                            comment_text: item.comment_text.clone(),
                            old_body_text: prev.body_text.clone(),
                            new_body_text: item.body_text.clone(),
                            reason: stale_reason_exec(item),
                        };
                        candidates.push(c);
                    } else {
                        if !same_comment || !same_body {
                            updated = updated + 1;
                        } else {
                            unchanged = unchanged + 1;
                        }
                        entries.push_last(id.clone(), SnapshotEntry::from_item(item));
                    }
                },
            }
            proof {
                assert(candidates@.map_values(|c: Candidate| c@) =~= candidates_of(old, items, t));
                assert(entries.val_seq()[k as int]@ == new_entry(old, items, ids[k as int]));
            }
            k = k + 1;
        }
        assert(ids.take(n as int) =~= ids);
        let m = self.entries.len();
        let mut pruned: usize = 0;
        let mut q: usize = 0;
        assert(self.entries.key_seq().take(0) =~= Seq::<Seq<char>>::empty());
        while q < m
            invariant
                self.entries.wf(),
                m == self.entries.key_seq().len(),
                index.wf(),
                index@ == last_index(items),
                q <= m,
                pruned <= q,
                pruned == pruned_count(self.entries.key_seq().take(q as int), items),
            decreases m - q,
        {
            let key = self.entries.key_at(q);
            assert(self.entries.key_seq().take(q + 1).drop_last() =~= self.entries.key_seq().take(
                q as int,
            ));
            if !index.contains_key(key.as_str()) {
                pruned = pruned + 1;
            }
            q = q + 1;
        }
        assert(self.entries.key_seq().take(m as int) =~= self.entries.key_seq());
        let mut snapshot = Snapshot::new_at(now);
        snapshot.entries = entries;
        proof {
            let e = snapshot.entries;
            assert(map_view(e@) =~= new_baseline(old, items)) by {
                e.lemma_dom();
                assert forall|id: Seq<char>| #[trigger] map_view(e@).contains_key(id)
                    == new_baseline(old, items).contains_key(id) by {
                    index.lemma_dom();
                }
                assert forall|id: Seq<char>| map_view(e@).contains_key(id) implies #[trigger] map_view(
                    e@,
                )[id] == new_baseline(old, items)[id] by {
                    let j = e.key_seq().index_of(id);
                    e.lemma_at(j);
                }
            }
        }
        DiffResult { candidates, new_baseline: snapshot, added, updated, unchanged, pruned }
    }
}

} // verus!
