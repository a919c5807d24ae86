//! Properties of runs of the tool: a check followed by another check, by a
//! verdict, or by a verdict and a check; and what applying verdicts reads.

use vstd::prelude::*;
use crate::engine::{apply_all, apply_one, ApplyState};
use crate::idmap::{lemma_sorted_ids, sorted_ids};
use crate::laws::{
    law_check_absorbs_all_but_candidates, lemma_fresh_item_id, lemma_last_index_finite,
    lemma_sorted_ids_in_dom,
};
use crate::model::{entry_of, EntryView, ItemView, Verdict};
use crate::scan::{file_part, id_files, scan_all};
use crate::snapshot::{
    candidate_of, candidates_of, classify, count_change, fresh_ids, fresh_item, last_index,
    new_baseline, new_entry, pruned_count, Change,
};

verus! {

/// Every id of `ids` has a fresh item.
pub open spec fn all_fresh(items: Seq<ItemView>, ids: Seq<Seq<char>>) -> bool {
    forall|i: int| 0 <= i < ids.len() ==> last_index(items).contains_key(#[trigger] ids[i])
}

proof fn lemma_all_fresh_drop_last(items: Seq<ItemView>, ids: Seq<Seq<char>>)
    requires
        all_fresh(items, ids),
        ids.len() > 0,
    ensures
        all_fresh(items, ids.drop_last()),
        last_index(items).contains_key(ids.last()),
{
    assert forall|i: int| 0 <= i < ids.drop_last().len() implies last_index(items).contains_key(
        #[trigger] ids.drop_last()[i],
    ) by {
        assert(ids.drop_last()[i] == ids[i]);
    }
    assert(last_index(items).contains_key(ids[ids.len() - 1]));
}

proof fn lemma_recheck_counts(
    old: Map<Seq<char>, EntryView>,
    items: Seq<ItemView>,
    ids: Seq<Seq<char>>,
)
    requires
        all_fresh(items, ids),
        items.len() <= usize::MAX,
    ensures
        candidates_of(new_baseline(old, items), items, ids) == candidates_of(old, items, ids),
        count_change(new_baseline(old, items), items, ids, Change::Added) == 0,
        count_change(new_baseline(old, items), items, ids, Change::Updated) == 0,
        count_change(new_baseline(old, items), items, ids, Change::Unchanged) == count_change(
            old,
            items,
            ids,
            Change::Added,
        ) + count_change(old, items, ids, Change::Updated) + count_change(
            old,
            items,
            ids,
            Change::Unchanged,
        ),
    decreases ids.len(),
{
    if ids.len() > 0 {
        lemma_all_fresh_drop_last(items, ids);
        lemma_recheck_counts(old, items, ids.drop_last());
        let id = ids.last();
        law_check_absorbs_all_but_candidates(old, items, id);
        lemma_fresh_item_id(items, id);
        let nb = new_baseline(old, items);
        let fi = fresh_item(items, id);
        if classify(old, fi) == Change::Stale {
            assert(nb[id] == new_entry(old, items, id));
            assert(candidate_of(fi, nb[fi.id]) == candidate_of(fi, old[fi.id]));
        }
    }
}

proof fn lemma_pruned_none(keys: Seq<Seq<char>>, items: Seq<ItemView>)
    requires
        all_fresh(items, keys),
    ensures
        pruned_count(keys, items) == 0,
    decreases keys.len(),
{
    if keys.len() > 0 {
        lemma_all_fresh_drop_last(items, keys);
        lemma_pruned_none(keys.drop_last(), items);
    }
}

/// Law: checking the same scan again against the baseline that a check
/// just stored raises exactly the same candidates, in the same order; it
/// adds, updates and prunes nothing, counts every other comment as
/// unchanged, and leaves the baseline as it was.
pub proof fn law_recheck_changes_nothing(old: Map<Seq<char>, EntryView>, items: Seq<ItemView>)
    requires
        items.len() <= usize::MAX,
    ensures
        ({
            let nb = new_baseline(old, items);
            let ids = fresh_ids(items);
            &&& sorted_ids(nb.dom()) == ids
            &&& candidates_of(nb, items, ids) == candidates_of(old, items, ids)
            &&& count_change(nb, items, ids, Change::Added) == 0
            &&& count_change(nb, items, ids, Change::Updated) == 0
            &&& count_change(nb, items, ids, Change::Unchanged) == count_change(
                old,
                items,
                ids,
                Change::Added,
            ) + count_change(old, items, ids, Change::Updated) + count_change(
                old,
                items,
                ids,
                Change::Unchanged,
            )
            &&& pruned_count(sorted_ids(nb.dom()), items) == 0
            &&& new_baseline(nb, items) == nb
        }),
{
    let nb = new_baseline(old, items);
    let ids = fresh_ids(items);
    assert(nb.dom() =~= last_index(items).dom());
    lemma_sorted_ids_in_dom(items);
    lemma_recheck_counts(old, items, ids);
    lemma_pruned_none(ids, items);
    assert(new_baseline(nb, items) =~= nb) by {
        assert forall|id: Seq<char>| #[trigger] nb.contains_key(id) implies new_baseline(
            nb,
            items,
        )[id] == nb[id] by {
            law_check_absorbs_all_but_candidates(old, items, id);
            lemma_fresh_item_id(items, id);
        }
    }
}

/// No candidate among `ids` has the id `x` of a fresh item that does not
/// compare as stale.
proof fn lemma_no_candidate(
    old: Map<Seq<char>, EntryView>,
    items: Seq<ItemView>,
    ids: Seq<Seq<char>>,
    x: Seq<char>,
)
    requires
        all_fresh(items, ids),
        items.len() <= usize::MAX,
        last_index(items).contains_key(x),
        classify(old, fresh_item(items, x)) != Change::Stale,
    ensures
        forall|k: int|
            0 <= k < candidates_of(old, items, ids).len() ==> (#[trigger] candidates_of(
                old,
                items,
                ids,
            )[k]).id != x,
    decreases ids.len(),
{
    if ids.len() > 0 {
        lemma_all_fresh_drop_last(items, ids);
        let rest = ids.drop_last();
        lemma_no_candidate(old, items, rest, x);
        let id = ids.last();
        lemma_fresh_item_id(items, id);
        let cr = candidates_of(old, items, rest);
        let c = candidates_of(old, items, ids);
        assert forall|k: int| 0 <= k < c.len() implies (#[trigger] c[k]).id != x by {
            if k < cr.len() {
                assert(c[k] == cr[k]);
            }
        }
    }
}

/// The id `ids[j]` of a fresh item that compares as stale has a candidate.
proof fn lemma_has_candidate(
    old: Map<Seq<char>, EntryView>,
    items: Seq<ItemView>,
    ids: Seq<Seq<char>>,
    j: int,
)
    requires
        all_fresh(items, ids),
        items.len() <= usize::MAX,
        0 <= j < ids.len(),
        classify(old, fresh_item(items, ids[j])) == Change::Stale,
    ensures
        exists|k: int|
            0 <= k < candidates_of(old, items, ids).len() && (#[trigger] candidates_of(
                old,
                items,
                ids,
            )[k]).id == ids[j],
    decreases ids.len(),
{
    lemma_all_fresh_drop_last(items, ids);
    let rest = ids.drop_last();
    let c = candidates_of(old, items, ids);
    if j == ids.len() - 1 {
        lemma_fresh_item_id(items, ids[j]);
        assert(c[c.len() - 1].id == ids[j]);
    } else {
        assert(rest[j] == ids[j]);
        lemma_has_candidate(old, items, rest, j);
        let cr = candidates_of(old, items, rest);
        let k = choose|k: int| 0 <= k < cr.len() && (#[trigger] cr[k]).id == rest[j];
        assert(c[k] == cr[k]);
    }
}

/// Law: a candidate left without a verdict comes up again at the next
/// check of the same code, while a verdict on it settles it: once a verdict
/// is applied with the same code, the next check counts the comment as
/// unchanged and raises no candidate for it.
pub proof fn law_a_verdict_stops_a_candidate_resurfacing(
    old: Map<Seq<char>, EntryView>,
    items: Seq<ItemView>,
    id: Seq<char>,
    st: ApplyState,
    rescan: Seq<ItemView>,
    v: Verdict,
    now: u64,
)
    requires
        items.len() <= usize::MAX,
        last_index(items).contains_key(id),
        classify(old, fresh_item(items, id)) == Change::Stale,
        st.entries == new_baseline(old, items),
        last_index(rescan).contains_key(id),
        fresh_item(rescan, id) == fresh_item(items, id),
    ensures
        ({
            let ids = fresh_ids(items);
            let again = candidates_of(new_baseline(old, items), items, ids);
            let after = apply_all(st, rescan, seq![(id, v)], now).entries;
            &&& exists|k: int| 0 <= k < again.len() && again[k].id == id
            &&& classify(after, fresh_item(items, id)) == Change::Unchanged
            &&& forall|k: int|
                0 <= k < candidates_of(after, items, ids).len() ==> (#[trigger] candidates_of(
                    after,
                    items,
                    ids,
                )[k]).id != id
        }),
{
    let ids = fresh_ids(items);
    let nb = new_baseline(old, items);
    lemma_sorted_ids_in_dom(items);
    lemma_last_index_finite(items);
    lemma_sorted_ids(last_index(items).dom());
    assert(ids.to_set().contains(id));
    let j = choose|j: int| 0 <= j < ids.len() && ids[j] == id;
    law_check_absorbs_all_but_candidates(old, items, id);
    lemma_has_candidate(nb, items, ids, j);
    let vs = seq![(id, v)];
    assert(vs.drop_last() =~= Seq::<(Seq<char>, Verdict)>::empty());
    assert(apply_all(st, rescan, vs.drop_last(), now) == st);
    assert(vs.last() == (id, v));
    assert(apply_all(st, rescan, vs, now) == apply_one(st, rescan, (id, v), now));
    lemma_fresh_item_id(items, id);
    let after = apply_all(st, rescan, vs, now).entries;
    assert(after == st.entries.insert(id, entry_of(fresh_item(items, id))));
    lemma_no_candidate(after, items, ids, id);
}

/// The files `files` of a project that maps each path to its text, or to
/// `None` where the file cannot be read, as a scan takes them.
pub open spec fn sources_of(
    project: Map<Seq<char>, Option<Seq<char>>>,
    files: Seq<Seq<char>>,
) -> Seq<(Seq<char>, Option<Seq<char>>)> {
    files.map_values(
        |f: Seq<char>|
            (
                f,
                if project.contains_key(f) {
                    project[f]
                } else {
                    None
                },
            ),
    )
}

/// The ids that verdicts are given for.
pub open spec fn verdict_ids(vs: Seq<(Seq<char>, Verdict)>) -> Seq<Seq<char>> {
    vs.map_values(|v: (Seq<char>, Verdict)| v.0)
}

/// The file part of an id, or nothing.
spec fn file_or_empty(id: Seq<char>) -> Seq<char> {
    match file_part(id) {
        Some(f) => f,
        None => Seq::empty(),
    }
}

/// The files named by a sequence of ids are finitely many.
pub proof fn lemma_id_files_finite(ids: Seq<Seq<char>>)
    ensures
        id_files(ids).finite(),
{
    let all = ids.map_values(|id: Seq<char>| file_or_empty(id)).to_set();
    vstd::seq_lib::seq_to_set_is_finite(ids.map_values(|id: Seq<char>| file_or_empty(id)));
    assert forall|f: Seq<char>| id_files(ids).contains(f) implies all.contains(f) by {
        let i = choose|i: int| 0 <= i < ids.len() && file_part(ids[i]) == Some(f);
        assert(ids.map_values(|id: Seq<char>| file_or_empty(id))[i] == f);
    }
    vstd::set_lib::lemma_set_subset_finite(all, id_files(ids));
}

/// Law: applying verdicts reads only the files that the verdicts' ids name.
/// Two projects that agree on those files give the same fresh scan (or the
/// same failure), whatever their other files hold, unreadable or
/// unparsable ones among them; so the verdicts leave the same baseline,
/// known issues and counts.
pub proof fn law_verdicts_read_only_their_files(
    p1: Map<Seq<char>, Option<Seq<char>>>,
    p2: Map<Seq<char>, Option<Seq<char>>>,
    start: ApplyState,
    vs: Seq<(Seq<char>, Verdict)>,
    now: u64,
)
    requires
        forall|f: Seq<char>|
            #[trigger] id_files(verdict_ids(vs)).contains(f) ==> (
            p1.contains_key(f) == p2.contains_key(f) && (p1.contains_key(f) ==> p1[f] == p2[f])),
    ensures
        ({
            let files = sorted_ids(id_files(verdict_ids(vs)));
            let r1 = scan_all(sources_of(p1, files), true);
            let r2 = scan_all(sources_of(p2, files), true);
            &&& r1 == r2
            &&& r1 matches Ok(items) ==> apply_all(start, items, vs, now) == apply_all(
                start,
                r2->Ok_0,
                vs,
                now,
            )
        }),
{
    let ids = verdict_ids(vs);
    let files = sorted_ids(id_files(ids));
    lemma_id_files_finite(ids);
    lemma_sorted_ids(id_files(ids));
    assert(sources_of(p1, files) =~= sources_of(p2, files)) by {
        assert forall|i: int| 0 <= i < files.len() implies sources_of(p1, files)[i] == sources_of(
            p2,
            files,
        )[i] by {
            assert(files.to_set().contains(files[i]));
            assert(id_files(ids).contains(files[i]));
        }
    }
}

} // verus!
