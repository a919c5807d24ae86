//! Comments confirmed stale and not fixed yet.

use vstd::prelude::*;
use crate::extract::items_view;
use crate::hashing::{hash_of, hash_str};
use crate::model::{
    map_view, now_unix, IssueView, ItemKind, ItemView, KnownIssue, KnownIssues, ScopedItem,
};
use crate::snapshot::{fresh_item, index_by_id, last_index, lemma_last_index};
use crate::text::{str_eq, string_from_chars, chars_of};

verus! {

/// An issue stays while its item exists and its comment was not edited.
pub open spec fn keeps_issue(items: Seq<ItemView>, id: Seq<char>, issue: IssueView) -> bool {
    &&& last_index(items).contains_key(id)
    &&& hash_of(fresh_item(items, id).comment_text) == hash_of(issue.comment_text)
}

/// The issues of `issues` that `items` keeps.
pub open spec fn reconciled(issues: Map<Seq<char>, KnownIssue>, items: Seq<ItemView>) -> Map<
    Seq<char>,
    KnownIssue,
> {
    Map::new(
        |id: Seq<char>| issues.contains_key(id) && keeps_issue(items, id, issues[id]@),
        |id: Seq<char>| issues[id],
    )
}

/// The issue recorded for an item.
pub open spec fn issue_of(
    kind: ItemKind,
    file: Seq<char>,
    item_path: Seq<char>,
    flagged_at: u64,
    comment_text: Seq<char>,
    old_body_text: Seq<char>,
    new_body_text: Seq<char>,
    reason: Seq<char>,
) -> IssueView {
    IssueView {
        kind,
        file,
        item_path,
        flagged_at,
        comment_text,
        old_body_text,
        new_body_text,
        reason,
    }
}

impl KnownIssues {
    /// Drops issues whose item no longer exists, and auto-clears issues
    /// whose comment text has since been edited
    pub fn reconcile(&mut self, fresh: &[ScopedItem]) -> (r: usize)
        requires
            old(self).issues.wf(),
        ensures
            final(self).issues.wf(),
            final(self).version == old(self).version,
            final(self).issues@ == reconciled(old(self).issues@, items_view(fresh@)),
            r == old(self).issues@.dom().len() - final(self).issues@.dom().len(),
    {
        let ghost items = items_view(fresh@);
        let ghost start = self.issues@;
        let index = index_by_id(fresh);
        let flen = fresh.len();
        assert(items.len() == fresh@.len());
        let n = self.issues.len();
        let mut keys: Vec<String> = Vec::new();
        let mut q: usize = 0;
        while q < n
            invariant
                self.issues.wf(),
                self.version == old(self).version,
                self.issues@ == start,
                n == self.issues.key_seq().len(),
                q <= n,
                keys@.map_values(|k: String| k@) == self.issues.key_seq().take(q as int),
            decreases n - q,
        {
            let k = self.issues.key_at(q).clone();
            proof {
                assert(keys@.push(k).map_values(|k: String| k@) =~= keys@.map_values(
                    |k: String| k@,
                ).push(k@));
                assert(self.issues.key_seq().take(q + 1) =~= self.issues.key_seq().take(
                    q as int,
                ).push(k@));
            }
            keys.push(k);
            q = q + 1;
        }
        let ghost ks = self.issues.key_seq();
        assert(ks.take(n as int) =~= ks);
        proof {
            self.issues.lemma_dom();
            self.issues.lemma_len();
        }
        let mut dropped: usize = 0;
        let mut i: usize = 0;
        while i < n
            invariant
                self.issues.wf(),
                self.version == old(self).version,
                crate::idmap::strictly_sorted(ks),
                index.wf(),
                index@ == last_index(items),
                items == items_view(fresh@),
                items.len() == fresh@.len() <= usize::MAX,
                start.dom() == ks.to_set(),
                keys@.map_values(|k: String| k@) == ks,
                n == ks.len(),
                i <= n,
                dropped <= i,
                self.issues@ == Map::new(
                    |id: Seq<char>|
                        start.contains_key(id) && (keeps_issue(items, id, start[id]@)
                            || !ks.take(i as int).contains(id)),
                    |id: Seq<char>| start[id],
                ),
                self.issues.key_seq().len() + dropped == n,
            decreases n - i,
        {
            let key = &keys[i];
            assert(keys@[i as int]@ == ks[i as int]);
            assert(start.contains_key(key@)) by {
                assert(ks.to_set().contains(ks[i as int]));
            }
            let ghost cur = self.issues@;
            assert(!ks.take(i as int).contains(key@)) by {
                if ks.take(i as int).contains(key@) {
                    let j = choose|j: int| 0 <= j < i && #[trigger] ks.take(i as int)[j] == key@;
                    crate::idmap::lemma_sorted_index(ks, j, i as int);
                }
            }
            assert(cur.contains_key(key@));
            let keep = match index.get(key.as_str()) {
                Some(p) => {
                    proof {
                        lemma_last_index(items, key@);
                    }
                    let item = &fresh[*p];
                    let issue = self.issues.get(key.as_str()).unwrap();
                    let a = hash_str(item.comment_text.as_str());
                    let b = hash_str(issue.comment_text.as_str());
                    str_eq(a.as_str(), b.as_str())
                },
                None => false,
            };
            assert(keep == keeps_issue(items, key@, start[key@]@));
            if !keep {
                let _ = self.issues.remove(key.as_str());
                dropped = dropped + 1;
            }
            i = i + 1;
            assert(self.issues@ =~= Map::new(
                |id: Seq<char>|
                    start.contains_key(id) && (keeps_issue(items, id, start[id]@) || !ks.take(
                        i as int,
                    ).contains(id)),
                |id: Seq<char>| start[id],
            )) by {
                assert forall|id: Seq<char>| ks.take(i as int).contains(id) == (ks.take(
                    i - 1,
                ).contains(id) || id == key@) by {
                    if ks.take(i as int).contains(id) {
                        let j = choose|j: int| 0 <= j < i && #[trigger] ks.take(i as int)[j] == id;
                        if j < i - 1 {
                            assert(ks.take(i - 1)[j] == id);
                        }
                    }
                    if ks.take(i - 1).contains(id) {
                        let j = choose|j: int| 0 <= j < i - 1 && #[trigger] ks.take(i - 1)[j] == id;
                        assert(ks.take(i as int)[j] == id);
                    }
                    if id == key@ {
                        assert(ks.take(i as int)[i - 1] == id);
                    }
                }
            }
        }
        proof {
            self.issues.lemma_len();
        }
        assert(self.issues@ =~= reconciled(start, items)) by {
            assert forall|id: Seq<char>| start.contains_key(id) implies ks.take(n as int).contains(
                id,
            ) by {
                assert(ks.to_set().contains(id));
            }
        }
        dropped
    }

    /// Records `id` as a known issue flagged at time `now`, replacing any
    /// earlier record of it.
    pub fn flag_at(
        &mut self,
        id: &str,
        kind: ItemKind,
        file: &str,
        item_path: &str,
        comment_text: &str,
        old_body_text: &str,
        new_body_text: &str,
        reason: &str,
        now: u64,
    )
        requires
            old(self).issues.wf(),
        ensures
            final(self).issues.wf(),
            final(self).version == old(self).version,
            map_view(final(self).issues@) == map_view(old(self).issues@).insert(
                id@,
                issue_of(
                    kind,
                    file@,
                    item_path@,
                    now,
                    comment_text@,
                    old_body_text@,
                    new_body_text@,
                    reason@,
                ),
            ),
    {
        let issue = KnownIssue {
            kind,
            file: string_from_chars(&chars_of(file)),
            item_path: string_from_chars(&chars_of(item_path)),
            flagged_at: now,
            comment_text: string_from_chars(&chars_of(comment_text)),
            old_body_text: string_from_chars(&chars_of(old_body_text)),
            new_body_text: string_from_chars(&chars_of(new_body_text)),
            reason: string_from_chars(&chars_of(reason)),
        };
        let ghost v = issue;
        self.issues.insert(string_from_chars(&chars_of(id)), issue);
        assert(map_view(self.issues@) =~= map_view(old(self).issues@).insert(id@, v@));
    }

    /// Records `id` as a known issue flagged now, replacing any earlier
    /// record of it.
    #[allow(clippy::too_many_arguments)]
    pub fn flag(
        &mut self,
        id: &str,
        kind: ItemKind,
        file: &str,
        item_path: &str,
        comment_text: &str,
        old_body_text: &str,
        new_body_text: &str,
        reason: &str,
    )
        requires
            old(self).issues.wf(),
        ensures
            final(self).issues.wf(),
            final(self).version == old(self).version,
            exists|t: u64|
                map_view(final(self).issues@) == map_view(old(self).issues@).insert(
                    id@,
                    issue_of(
                        kind,
                        file@,
                        item_path@,
                        t,
                        comment_text@,
                        old_body_text@,
                        new_body_text@,
                        reason@,
                    ),
                ),
    {
        let now = now_unix();
        self.flag_at(
            id,
            kind,
            file,
            item_path,
            comment_text,
            old_body_text,
            new_body_text,
            reason,
            now,
        );
    }

    /// Removes the known issue `id`; whether there was one.
    pub fn clear(&mut self, id: &str) -> (r: bool)
        requires
            old(self).issues.wf(),
        ensures
            final(self).issues.wf(),
            final(self).version == old(self).version,
            final(self).issues@ == old(self).issues@.remove(id@),
            r == old(self).issues@.contains_key(id@),
    {
        self.issues.remove(id).is_some()
    }
}

} // verus!
