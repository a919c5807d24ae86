//! Properties that hold across the operations of the library.

use vstd::prelude::*;
use crate::blocks::nested_blocks;
use crate::engine::{apply_one, baseline_of, ApplyState};
use crate::extract::{
    container_kind, id_of, extract_items, free_group, free_path, lemma_block_below, make_item, recurse_child,
    recurse_loop, scan_blocks, container_scan, scan_loop, trailing_group, ScanState,
};
use crate::model::ItemKind;
use crate::syntax::{field_index, lemma_child, lemma_field_index, lemma_seq_children, SyntaxNode};
use crate::model::{entry_of, CandidateView, EntryView, ItemView, Verdict};
use crate::snapshot::{
    candidates_of, classify, count_change, fresh_ids, fresh_item, last_index, new_baseline,
    Change,
};

verus! {

/// Law: after a check, the stored baseline holds every comment that needed
/// no verdict as unchanged, and keeps every candidate a candidate: checking
/// the same scan again raises the same candidates and nothing else.
pub proof fn law_check_absorbs_all_but_candidates(
    old: Map<Seq<char>, EntryView>,
    items: Seq<ItemView>,
    id: Seq<char>,
)
    requires
        last_index(items).contains_key(id),
        items.len() <= usize::MAX,
    ensures
        classify(new_baseline(old, items), fresh_item(items, id)) == if classify(
            old,
            fresh_item(items, id),
        ) == Change::Stale {
            Change::Stale
        } else {
            Change::Unchanged
        },
{
    lemma_fresh_item_id(items, id);
}

/// The fresh item of an id carries that id.
pub proof fn lemma_fresh_item_id(items: Seq<ItemView>, id: Seq<char>)
    requires
        last_index(items).contains_key(id),
        items.len() <= usize::MAX,
    ensures
        fresh_item(items, id).id == id,
    decreases items.len(),
{
    if items.len() > 0 && items.last().id != id {
        lemma_fresh_item_id(items.drop_last(), id);
        let i = last_index(items.drop_last())[id] as int;
        lemma_last_index_bound(items.drop_last(), id);
        assert(items.drop_last()[i] == items[i]);
    }
}

/// The last position of an id lies inside the scan.
pub proof fn lemma_last_index_bound(items: Seq<ItemView>, id: Seq<char>)
    requires
        last_index(items).contains_key(id),
    ensures
        last_index(items)[id] < items.len(),
    decreases items.len(),
{
    if items.len() > 0 && items.last().id != id {
        lemma_last_index_bound(items.drop_last(), id);
    }
}

/// Law: checking a scan against the baseline that was just taken from it
/// finds nothing: every comment is unchanged.
pub proof fn law_fresh_baseline_is_unchanged(items: Seq<ItemView>, id: Seq<char>)
    requires
        last_index(items).contains_key(id),
        items.len() <= usize::MAX,
    ensures
        classify(baseline_of(items), fresh_item(items, id)) == Change::Unchanged,
{
    lemma_fresh_item_id(items, id);
}

/// Law: checking a scan against the baseline that was just taken from it
/// raises no candidate and counts every comment as unchanged.
pub proof fn law_fresh_baseline_has_no_candidates(items: Seq<ItemView>)
    requires
        items.len() <= usize::MAX,
    ensures
        candidates_of(baseline_of(items), items, fresh_ids(items)).len() == 0,
        count_change(baseline_of(items), items, fresh_ids(items), Change::Added) == 0,
        count_change(baseline_of(items), items, fresh_ids(items), Change::Updated) == 0,
        count_change(baseline_of(items), items, fresh_ids(items), Change::Unchanged)
            == fresh_ids(items).len(),
{
    let ids = fresh_ids(items);
    lemma_sorted_ids_in_dom(items);
    lemma_counts_unchanged(items, ids);
}

/// Every fresh id has a fresh item.
pub proof fn lemma_sorted_ids_in_dom(items: Seq<ItemView>)
    ensures
        forall|i: int|
            0 <= i < fresh_ids(items).len() ==> last_index(items).contains_key(
                #[trigger] fresh_ids(items)[i],
            ),
{
    let dom = last_index(items).dom();
    lemma_last_index_finite(items);
    crate::idmap::lemma_sorted_ids(dom);
    let ids = fresh_ids(items);
    assert forall|i: int| 0 <= i < ids.len() implies last_index(items).contains_key(
        #[trigger] ids[i],
    ) by {
        assert(ids.to_set().contains(ids[i]));
    }
}

/// A scan has finitely many ids.
pub proof fn lemma_last_index_finite(items: Seq<ItemView>)
    ensures
        last_index(items).dom().finite(),
    decreases items.len(),
{
    if items.len() > 0 {
        lemma_last_index_finite(items.drop_last());
    }
}

proof fn lemma_counts_unchanged(items: Seq<ItemView>, ids: Seq<Seq<char>>)
    requires
        forall|i: int| 0 <= i < ids.len() ==> last_index(items).contains_key(#[trigger] ids[i]),
        items.len() <= usize::MAX,
    ensures
        candidates_of(baseline_of(items), items, ids).len() == 0,
        count_change(baseline_of(items), items, ids, Change::Added) == 0,
        count_change(baseline_of(items), items, ids, Change::Updated) == 0,
        count_change(baseline_of(items), items, ids, Change::Unchanged) == ids.len(),
    decreases ids.len(),
{
    if ids.len() > 0 {
        assert forall|i: int| 0 <= i < ids.drop_last().len() implies last_index(items).contains_key(
            #[trigger] ids.drop_last()[i],
        ) by {
            assert(ids.drop_last()[i] == ids[i]);
        }
        lemma_counts_unchanged(items, ids.drop_last());
        assert(last_index(items).contains_key(ids[ids.len() - 1]));
        law_fresh_baseline_is_unchanged(items, ids.last());
    }
}

/// Law: once a verdict is applied for an item that the fresh scan has, its
/// baseline entry records the fresh item, so the same code never comes up
/// again as a candidate.
pub proof fn law_verdict_settles_the_entry(
    st: ApplyState,
    items: Seq<ItemView>,
    v: (Seq<char>, Verdict),
    now: u64,
)
    requires
        last_index(items).contains_key(v.0),
        items.len() <= usize::MAX,
    ensures
        apply_one(st, items, v, now).entries[v.0] == entry_of(fresh_item(items, v.0)),
        classify(apply_one(st, items, v, now).entries, fresh_item(items, v.0))
            == Change::Unchanged,
{
    lemma_fresh_item_id(items, v.0);
}

/// Law: a "no" verdict leaves the comment as a known issue, and a "yes"
/// verdict leaves none, whatever was recorded before.
pub proof fn law_verdict_sets_the_issue(
    st: ApplyState,
    items: Seq<ItemView>,
    v: (Seq<char>, Verdict),
    now: u64,
)
    requires
        last_index(items).contains_key(v.0),
    ensures
        apply_one(st, items, v, now).issues.contains_key(v.0) == (v.1 == Verdict::No),
{
}

/// Law: a verdict for an id that the fresh scan lacks changes nothing but
/// the count of skipped verdicts.
pub proof fn law_missing_verdict_is_skipped(
    st: ApplyState,
    items: Seq<ItemView>,
    v: (Seq<char>, Verdict),
    now: u64,
)
    requires
        !last_index(items).contains_key(v.0),
    ensures
        apply_one(st, items, v, now) == (ApplyState { skipped: st.skipped + 1, ..st }),
{
}

/// Two items that differ at most in the line they were found on.
pub open spec fn same_but_line(a: ItemView, b: ItemView) -> bool {
    a == (ItemView { line: a.line, ..b })
}

/// Two scans whose items differ at most in their lines.
pub open spec fn scans_same_but_lines(a: Seq<ItemView>, b: Seq<ItemView>) -> bool {
    &&& a.len() == b.len()
    &&& forall|i: int| 0 <= i < a.len() ==> same_but_line(#[trigger] a[i], b[i])
}

/// Two candidates that differ at most in their line.
pub open spec fn candidates_same_but_lines(a: Seq<CandidateView>, b: Seq<CandidateView>) -> bool {
    &&& a.len() == b.len()
    &&& forall|i: int| 0 <= i < a.len() ==> #[trigger] a[i] == (CandidateView { line: a[i].line, ..b[i] })
}

proof fn lemma_last_index_same(a: Seq<ItemView>, b: Seq<ItemView>)
    requires
        scans_same_but_lines(a, b),
    ensures
        last_index(a) == last_index(b),
    decreases a.len(),
{
    if a.len() > 0 {
        assert(same_but_line(a[a.len() - 1], b[b.len() - 1]));
        assert(scans_same_but_lines(a.drop_last(), b.drop_last())) by {
            assert forall|i: int| 0 <= i < a.drop_last().len() implies same_but_line(
                #[trigger] a.drop_last()[i],
                b.drop_last()[i],
            ) by {
                assert(same_but_line(a[i], b[i]));
            }
        }
        lemma_last_index_same(a.drop_last(), b.drop_last());
    }
}

proof fn lemma_counts_same(
    old: Map<Seq<char>, EntryView>,
    a: Seq<ItemView>,
    b: Seq<ItemView>,
    ids: Seq<Seq<char>>,
)
    requires
        scans_same_but_lines(a, b),
        forall|i: int| 0 <= i < ids.len() ==> last_index(a).contains_key(#[trigger] ids[i]),
    ensures
        forall|c: Change| count_change(old, a, ids, c) == #[trigger] count_change(old, b, ids, c),
        candidates_same_but_lines(candidates_of(old, a, ids), candidates_of(old, b, ids)),
    decreases ids.len(),
{
    if ids.len() > 0 {
        assert forall|i: int| 0 <= i < ids.drop_last().len() implies last_index(a).contains_key(
            #[trigger] ids.drop_last()[i],
        ) by {
            assert(ids.drop_last()[i] == ids[i]);
        }
        lemma_counts_same(old, a, b, ids.drop_last());
        let id = ids.last();
        assert(last_index(a).contains_key(ids[ids.len() - 1]));
        lemma_last_index_same(a, b);
        lemma_last_index_bound(a, id);
        let x = last_index(a)[id] as int;
        assert(same_but_line(a[x], b[x]));
        assert(classify(old, fresh_item(a, id)) == classify(old, fresh_item(b, id)));
        assert forall|c: Change| count_change(old, a, ids, c) == #[trigger] count_change(
            old,
            b,
            ids,
            c,
        ) by {
            assert(count_change(old, a, ids.drop_last(), c) == count_change(
                old,
                b,
                ids.drop_last(),
                c,
            ));
        }
        let ra = candidates_of(old, a, ids.drop_last());
        let rb = candidates_of(old, b, ids.drop_last());
        let ca = candidates_of(old, a, ids);
        let cb = candidates_of(old, b, ids);
        assert(candidates_same_but_lines(ca, cb)) by {
            assert forall|i: int| 0 <= i < ca.len() implies #[trigger] ca[i] == (CandidateView {
                line: ca[i].line,
                ..cb[i]
            }) by {
                if i < ra.len() {
                    assert(ca[i] == ra[i]);
                    assert(cb[i] == rb[i]);
                }
            }
        }
    }
}

/// Law: where comments sit in their files does not matter to a check. Two
/// scans whose items differ only in their lines have the same ids, leave
/// the same baseline, count the same, and raise the same candidates but
/// for the lines they report.
pub proof fn law_lines_do_not_matter_to_a_check(
    old: Map<Seq<char>, EntryView>,
    a: Seq<ItemView>,
    b: Seq<ItemView>,
)
    requires
        scans_same_but_lines(a, b),
    ensures
        fresh_ids(a) == fresh_ids(b),
        new_baseline(old, a) == new_baseline(old, b),
        forall|c: Change|
            count_change(old, a, fresh_ids(a), c) == #[trigger] count_change(
                old,
                b,
                fresh_ids(b),
                c,
            ),
        candidates_same_but_lines(
            candidates_of(old, a, fresh_ids(a)),
            candidates_of(old, b, fresh_ids(b)),
        ),
{
    lemma_last_index_same(a, b);
    lemma_sorted_ids_in_dom(a);
    lemma_counts_same(old, a, b, fresh_ids(a));
    assert(new_baseline(old, a) =~= new_baseline(old, b)) by {
        assert forall|id: Seq<char>| #[trigger] last_index(a).contains_key(id) implies
            crate::snapshot::new_entry(old, a, id) == crate::snapshot::new_entry(old, b, id) by {
            lemma_last_index_bound(a, id);
            let x = last_index(a)[id] as int;
            assert(same_but_line(a[x], b[x]));
        }
    }
}

/// Every item was found in `file` and its id is `file|item_path`.
pub open spec fn qualified(items: Seq<ItemView>, file: Seq<char>) -> bool {
    forall|k: int|
        0 <= k < items.len() ==> (#[trigger] items[k]).file == file && items[k].id == id_of(
            file,
            items[k].item_path,
        )
}

proof fn lemma_push_qualified(items: Seq<ItemView>, file: Seq<char>, it: ItemView)
    requires
        qualified(items, file),
        it.file == file,
        it.id == id_of(file, it.item_path),
    ensures
        qualified(items.push(it), file),
{
    assert forall|k: int| 0 <= k < items.push(it).len() implies (#[trigger] items.push(it)[k]).file
        == file && items.push(it)[k].id == id_of(file, items.push(it)[k].item_path) by {
        if k < items.len() {
            assert(items.push(it)[k] == items[k]);
        }
    }
}

proof fn lemma_groups_qualified(
    src: Seq<char>,
    file: Seq<char>,
    enclosing: Seq<char>,
    cs: Seq<SyntaxNode>,
    gs: int,
    ge: int,
    st: ScanState,
)
    requires
        qualified(st.1, file),
    ensures
        qualified(trailing_group(src, file, enclosing, cs, gs, ge, st).1, file),
        qualified(free_group(src, file, enclosing, cs, gs, ge, st).1, file),
{
    let t = trailing_group(src, file, enclosing, cs, gs, ge, st);
    let f = free_group(src, file, enclosing, cs, gs, ge, st);
    if t.1 != st.1 {
        lemma_push_qualified(st.1, file, t.1.last());
        assert(t.1 == st.1.push(t.1.last()));
    }
    if f.1 != st.1 {
        lemma_push_qualified(st.1, file, f.1.last());
        assert(f.1 == st.1.push(f.1.last()));
    }
}

proof fn lemma_scan_loop_qualified(
    src: Seq<char>,
    file: Seq<char>,
    enclosing: Seq<char>,
    cs: Seq<SyntaxNode>,
    i: int,
    st: ScanState,
)
    requires
        qualified(st.1, file),
    ensures
        qualified(scan_loop(src, file, enclosing, cs, i, st).1, file),
    decreases cs.len() - i,
{
    if 0 <= i < cs.len() {
        if !crate::scope::comment_node(cs[i]) {
            lemma_scan_loop_qualified(src, file, enclosing, cs, i + 1, st);
        } else {
            let ge = crate::extract::group_end(cs, i);
            let item_idx = crate::extract::attr_end(cs, ge);
            let last = cs[ge - 1];
            if crate::scope::doc_comment_node(last) && !crate::scope::inner_doc_node(last) && item_idx
                < cs.len() && crate::blocks::is_item_kind(cs[item_idx].kind@) {
                let next = cs[item_idx];
                let path = enclosing + "::"@ + crate::scope::name_of(src, next);
                let item = make_item(
                    file,
                    path,
                    crate::extract::item_kind_of(next.kind@),
                    crate::model::CommentKind::OuterDoc,
                    crate::text::join_lines(crate::extract::doc_texts(src, cs.subrange(i, ge))),
                    crate::scope::body_text_of(src, cs.subrange(ge, item_idx), next),
                    crate::extract::line_number(cs[i]),
                );
                lemma_push_qualified(st.1, file, item);
                if item_idx + 1 > i {
                    lemma_scan_loop_qualified(
                        src,
                        file,
                        enclosing,
                        cs,
                        item_idx + 1,
                        (st.0, st.1.push(item)),
                    );
                }
            } else {
                lemma_groups_qualified(src, file, enclosing, cs, i, ge, st);
                let trailing = i > 0 && cs[i - 1].end_row == cs[i].start_row;
                let st2 = if trailing {
                    trailing_group(src, file, enclosing, cs, i, ge, st)
                } else {
                    free_group(src, file, enclosing, cs, i, ge, st)
                };
                if i < ge <= cs.len() {
                    lemma_scan_loop_qualified(src, file, enclosing, cs, ge, st2);
                }
            }
        }
    }
}

proof fn lemma_scan_container_qualified(
    src: Seq<char>,
    file: Seq<char>,
    enclosing: Seq<char>,
    kind: ItemKind,
    cs: Seq<SyntaxNode>,
    st: ScanState,
)
    requires
        qualified(st.1, file),
    ensures
        qualified(container_scan(src, file, enclosing, kind, cs, st).1, file),
    decreases cs, cs.len() + 1, 0int,
{
    let lead = crate::extract::lead_end(cs, 0);
    let st1 = if lead > 0 {
        let it = make_item(
            file,
            enclosing,
            kind,
            crate::model::CommentKind::InnerDoc,
            crate::text::join_lines(crate::extract::inner_doc_texts(src, cs.take(lead))),
            crate::scope::container_signature(src, cs.skip(lead)),
            crate::extract::line_number(cs[0]),
        );
        lemma_push_qualified(st.1, file, it);
        (st.0, st.1.push(it))
    } else {
        st
    };
    lemma_scan_loop_qualified(src, file, enclosing, cs, lead, st1);
    let st2 = scan_loop(src, file, enclosing, cs, lead, st1);
    lemma_recurse_loop_qualified(src, file, enclosing, kind, cs, 0, st2);
}

proof fn lemma_recurse_loop_qualified(
    src: Seq<char>,
    file: Seq<char>,
    enclosing: Seq<char>,
    kind: ItemKind,
    cs: Seq<SyntaxNode>,
    j: int,
    st: ScanState,
)
    requires
        qualified(st.1, file),
    ensures
        qualified(recurse_loop(src, file, enclosing, kind, cs, j, st).1, file),
    decreases cs, cs.len() - j, if 0 <= j < cs.len() {
        nested_blocks(cs[j]).len() + 2
    } else {
        0
    },
{
    if 0 <= j < cs.len() {
        lemma_recurse_child_qualified(src, file, enclosing, kind, cs, j, st);
        lemma_recurse_loop_qualified(
            src,
            file,
            enclosing,
            kind,
            cs,
            j + 1,
            recurse_child(src, file, enclosing, kind, cs, j, st),
        );
    }
}

proof fn lemma_recurse_child_qualified(
    src: Seq<char>,
    file: Seq<char>,
    enclosing: Seq<char>,
    kind: ItemKind,
    cs: Seq<SyntaxNode>,
    j: int,
    st: ScanState,
)
    requires
        qualified(st.1, file),
    ensures
        qualified(recurse_child(src, file, enclosing, kind, cs, j, st).1, file),
    decreases cs, cs.len() - j, if 0 <= j < cs.len() {
        nested_blocks(cs[j]).len() + 1
    } else {
        0
    },
{
    if 0 <= j < cs.len() {
        let c = cs[j];
        match container_kind(c.kind@) {
            Some(sub_kind) => {
                lemma_field_index(c, "body");
                match field_index(c, "body") {
                    Some(b) => {
                        lemma_seq_children(cs, j);
                        lemma_child(c, b);
                        lemma_seq_children(c.children@, b);
                        let body = c.children@[b];
                        lemma_scan_container_qualified(
                            src,
                            file,
                            enclosing + "::"@ + crate::scope::name_of(src, c),
                            sub_kind,
                            body.children@,
                            st,
                        );
                    },
                    None => {},
                }
            },
            None => {
                lemma_scan_blocks_qualified(src, file, enclosing, kind, cs, j, 0, st);
            },
        }
    }
}

proof fn lemma_scan_blocks_qualified(
    src: Seq<char>,
    file: Seq<char>,
    enclosing: Seq<char>,
    kind: ItemKind,
    cs: Seq<SyntaxNode>,
    j: int,
    k: int,
    st: ScanState,
)
    requires
        qualified(st.1, file),
    ensures
        qualified(scan_blocks(src, file, enclosing, kind, cs, j, k, st).1, file),
    decreases cs, cs.len() - j, if 0 <= j < cs.len() {
        nested_blocks(cs[j]).len() - k
    } else {
        0
    },
{
    if 0 <= j < cs.len() && 0 <= k < nested_blocks(cs[j]).len() {
        let b = nested_blocks(cs[j])[k];
        lemma_block_below(cs, j, k);
        lemma_scan_container_qualified(src, file, enclosing, kind, b.children@, st);
        lemma_scan_blocks_qualified(
            src,
            file,
            enclosing,
            kind,
            cs,
            j,
            k + 1,
            container_scan(src, file, enclosing, kind, b.children@, st),
        );
    }
}

/// Law: every item found in a file records that file, and its id is the
/// file and its item path joined by `|`.
pub proof fn law_ids_are_qualified_by_file(file: Seq<char>, src: Seq<char>, root: SyntaxNode)
    ensures
        qualified(extract_items(file, src, root), file),
{
    lemma_scan_container_qualified(
        src,
        file,
        "crate"@,
        ItemKind::Module,
        root.children@,
        (Map::empty(), Seq::empty()),
    );
}

/// Law: ids from two different files never collide, whatever their item
/// paths, as long as neither file name holds a `|`.
pub proof fn law_ids_of_different_files_differ(
    f1: Seq<char>,
    p1: Seq<char>,
    f2: Seq<char>,
    p2: Seq<char>,
)
    requires
        f1 != f2,
        !f1.contains('|'),
        !f2.contains('|'),
    ensures
        id_of(f1, p1) != id_of(f2, p2),
{
    reveal_strlit("|");
    let a = id_of(f1, p1);
    let b = id_of(f2, p2);
    if a == b {
        if f1.len() == f2.len() {
            assert(f1 =~= f2) by {
                assert forall|i: int| 0 <= i < f1.len() implies f1[i] == f2[i] by {
                    assert(a[i] == f1[i]);
                    assert(b[i] == f2[i]);
                }
            }
        } else if f1.len() < f2.len() {
            assert(a[f1.len() as int] == '|');
            assert(b[f1.len() as int] == f2[f1.len() as int]);
            assert(f2.contains('|'));
        } else {
            assert(b[f2.len() as int] == '|');
            assert(a[f2.len() as int] == f1[f2.len() as int]);
            assert(f1.contains('|'));
        }
    }
}

proof fn lemma_decimal_len(n: nat)
    ensures
        crate::text::decimal(n).len() >= 1,
        n >= 10 ==> crate::text::decimal(n).len() >= 2,
    decreases n,
{
    if n >= 10 {
        lemma_decimal_len(n / 10);
    }
}

/// Different numbers are written differently.
pub proof fn lemma_decimal_injective(a: nat, b: nat)
    requires
        crate::text::decimal(a) == crate::text::decimal(b),
    ensures
        a == b,
    decreases a,
{
    lemma_decimal_len(a);
    lemma_decimal_len(b);
    let da = crate::text::decimal(a);
    let db = crate::text::decimal(b);
    if a < 10 && b < 10 {
        assert(da[0] == crate::text::digit_char(a as int));
        assert(db[0] == crate::text::digit_char(b as int));
    } else if a >= 10 && b >= 10 {
        let pa = crate::text::decimal(a / 10);
        let pb = crate::text::decimal(b / 10);
        assert(da == pa + seq![crate::text::digit_char((a % 10) as int)]);
        assert(db == pb + seq![crate::text::digit_char((b % 10) as int)]);
        assert(da.last() == crate::text::digit_char((a % 10) as int));
        assert(db.last() == crate::text::digit_char((b % 10) as int));
        assert(pa =~= da.drop_last());
        assert(pb =~= db.drop_last());
        lemma_decimal_injective(a / 10, b / 10);
    }
}

/// Law: the same comment text met twice in one container gets two
/// different paths, so each occurrence is tracked on its own.
pub proof fn law_repeated_free_comments_get_distinct_paths(
    enclosing: Seq<char>,
    tag: Seq<char>,
    text: Seq<char>,
    dedup: Map<Seq<char>, usize>,
)
    requires
        forall|k: Seq<char>| dedup.contains_key(k) ==> dedup[k] < usize::MAX,
    ensures
        ({
            let (p1, d1) = free_path(enclosing, tag, text, dedup);
            let (p2, d2) = free_path(enclosing, tag, text, d1);
            p1 != p2
        }),
{
    let (p1, d1) = free_path(enclosing, tag, text, dedup);
    let (p2, d2) = free_path(enclosing, tag, text, d1);
    let base = enclosing + "#"@ + tag + ":"@ + crate::hashing::anchor_of(crate::hashing::normalize(text));
    let n: usize = if dedup.contains_key(base) { dedup[base] } else { 0 };
    assert(d1.contains_key(base) && d1[base] == n + 1);
    lemma_decimal_len((n + 1) as nat);
    if n == 0 {
        assert(p1 == base);
        assert(p2.len() > base.len());
    } else {
        if p1 == p2 {
            let sfx1 = crate::text::decimal(n as nat);
            let sfx2 = crate::text::decimal((n + 1) as nat);
            let pre = base + ":"@;
            assert(p1 == pre + sfx1);
            assert(p2 == pre + sfx2);
            assert(sfx1 =~= p1.skip(pre.len() as int));
            assert(sfx2 =~= p2.skip(pre.len() as int));
            lemma_decimal_injective(n as nat, (n + 1) as nat);
        }
    }
}

} // verus!
