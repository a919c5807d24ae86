//! A map from string ids to values that keeps its keys in the order of
//! `str`, as an ordered map does.

use vstd::prelude::*;
use crate::text::{
    compare_text, lemma_text_lt_irreflexive, lemma_text_lt_total, lemma_text_lt_transitive,
    text_lt, TextOrder,
};

verus! {

/// Every key is smaller than the next ones.
pub open spec fn strictly_sorted(ks: Seq<Seq<char>>) -> bool {
    forall|i: int, j: int| 0 <= i < j < ks.len() ==> text_lt(#[trigger] ks[i], #[trigger] ks[j])
}

/// The keys of `ids`, in increasing order.
pub open spec fn sorted_ids(ids: Set<Seq<char>>) -> Seq<Seq<char>> {
    choose|ks: Seq<Seq<char>>| strictly_sorted(ks) && ks.to_set() == ids
}

/// A strictly sorted sequence holds each key once.
pub proof fn lemma_sorted_index(ks: Seq<Seq<char>>, i: int, j: int)
    requires
        strictly_sorted(ks),
        0 <= i < ks.len(),
        0 <= j < ks.len(),
        ks[i] == ks[j],
    ensures
        i == j,
{
    if i < j {
        lemma_text_lt_irreflexive(ks[i]);
    } else if j < i {
        lemma_text_lt_irreflexive(ks[i]);
    }
}

/// Two strictly sorted sequences with the same keys are the same sequence.
pub proof fn lemma_sorted_unique(a: Seq<Seq<char>>, b: Seq<Seq<char>>)
    requires
        strictly_sorted(a),
        strictly_sorted(b),
        a.to_set() == b.to_set(),
    ensures
        a == b,
    decreases a.len(),
{
    if a.len() == 0 {
        if b.len() > 0 {
            assert(b.to_set().contains(b[0]));
        }
    } else if b.len() == 0 {
        assert(a.to_set().contains(a[0]));
    } else {
        assert(a.to_set().contains(a[0]));
        assert(b.to_set().contains(b[0]));
        let ia = choose|i: int| 0 <= i < a.len() && a[i] == b[0];
        let ib = choose|i: int| 0 <= i < b.len() && b[i] == a[0];
        if ia > 0 {
            if ib > 0 {
                // a[0] < a[ia] == b[0] < b[ib] == a[0]
                lemma_text_lt_transitive(a[0], b[0], a[0]);
                lemma_text_lt_irreflexive(a[0]);
            } else {
                lemma_text_lt_irreflexive(a[0]);
            }
        }
        if ia == 0 {
            assert(a[0] == b[0]);
        } else {
            assert(ib == 0);
            assert(a[0] == b[0]);
        }
        let a1 = a.drop_first();
        let b1 = b.drop_first();
        assert(a1.to_set() =~= b1.to_set()) by {
            assert forall|k: Seq<char>| a1.to_set().contains(k) implies b1.to_set().contains(k) by {
                let i = choose|i: int| 0 <= i < a1.len() && a1[i] == k;
                assert(a[i + 1] == k);
                assert(a.to_set().contains(k));
                let j = choose|j: int| 0 <= j < b.len() && b[j] == k;
                if j == 0 {
                    lemma_sorted_index(a, 0, i + 1);
                }
                assert(b1[j - 1] == k);
            }
            assert forall|k: Seq<char>| b1.to_set().contains(k) implies a1.to_set().contains(k) by {
                let i = choose|i: int| 0 <= i < b1.len() && b1[i] == k;
                assert(b[i + 1] == k);
                assert(b.to_set().contains(k));
                let j = choose|j: int| 0 <= j < a.len() && a[j] == k;
                if j == 0 {
                    lemma_sorted_index(b, 0, i + 1);
                }
                assert(a1[j - 1] == k);
            }
        }
        assert(strictly_sorted(a1)) by {
            assert forall|i: int, j: int| 0 <= i < j < a1.len() implies text_lt(
                #[trigger] a1[i],
                #[trigger] a1[j],
            ) by {
                assert(a1[i] == a[i + 1] && a1[j] == a[j + 1]);
            }
        }
        assert(strictly_sorted(b1)) by {
            assert forall|i: int, j: int| 0 <= i < j < b1.len() implies text_lt(
                #[trigger] b1[i],
                #[trigger] b1[j],
            ) by {
                assert(b1[i] == b[i + 1] && b1[j] == b[j + 1]);
            }
        }
        lemma_sorted_unique(a1, b1);
        assert(a =~= b) by {
            assert forall|i: int| 0 <= i < a.len() implies a[i] == b[i] by {
                if i > 0 {
                    assert(a[i] == a1[i - 1]);
                    assert(b[i] == b1[i - 1]);
                }
            }
        }
    }
}

/// The keys of a strictly sorted sequence, in order, are the sorted keys of
/// its set.
pub proof fn lemma_sorted_is_sorted_ids(ks: Seq<Seq<char>>)
    requires
        strictly_sorted(ks),
    ensures
        sorted_ids(ks.to_set()) == ks,
{
    let ids = ks.to_set();
    assert(exists|k: Seq<Seq<char>>| strictly_sorted(k) && k.to_set() == ids);
    let c = sorted_ids(ids);
    lemma_sorted_unique(c, ks);
}

/// The position of the first key of `k`, at or after `i`, that is not
/// smaller than `x`.
pub open spec fn first_not_below(k: Seq<Seq<char>>, x: Seq<char>, i: int) -> int
    decreases k.len() - i,
{
    if i < 0 || i >= k.len() || !text_lt(k[i], x) {
        i
    } else {
        first_not_below(k, x, i + 1)
    }
}

proof fn lemma_first_not_below(k: Seq<Seq<char>>, x: Seq<char>, i: int)
    requires
        0 <= i <= k.len(),
        forall|j: int| 0 <= j < i ==> text_lt(#[trigger] k[j], x),
    ensures
        ({
            let p = first_not_below(k, x, i);
            &&& i <= p <= k.len()
            &&& forall|j: int| 0 <= j < p ==> text_lt(#[trigger] k[j], x)
            &&& p < k.len() ==> !text_lt(k[p], x)
        }),
    decreases k.len() - i,
{
    if i < k.len() && text_lt(k[i], x) {
        lemma_first_not_below(k, x, i + 1);
    }
}

/// Every finite set of ids has its ids in increasing order.
pub proof fn lemma_sorted_ids(s: Set<Seq<char>>)
    requires
        s.finite(),
    ensures
        strictly_sorted(sorted_ids(s)),
        sorted_ids(s).to_set() == s,
    decreases s.len(),
{
    if s.len() == 0 {
        let e = Seq::<Seq<char>>::empty();
        assert(e.to_set() =~= s);
        assert(strictly_sorted(e));
    } else {
        let x = s.choose();
        let r = s.remove(x);
        lemma_sorted_ids(r);
        let k = sorted_ids(r);
        lemma_first_not_below(k, x, 0);
        let p = first_not_below(k, x, 0);
        let k2 = k.insert(p, x);
        assert(strictly_sorted(k2)) by {
            assert forall|a: int, b: int| 0 <= a < b < k2.len() implies text_lt(
                #[trigger] k2[a],
                #[trigger] k2[b],
            ) by {
                if b < p {
                    assert(k2[a] == k[a] && k2[b] == k[b]);
                } else if b == p {
                    assert(k2[a] == k[a]);
                } else if a < p {
                    assert(k2[a] == k[a] && k2[b] == k[b - 1]);
                    assert(k.to_set().contains(k[b - 1]));
                    assert(k[p] != x) by {
                        assert(k.to_set().contains(k[p]));
                    }
                    lemma_text_lt_total(k[p], x);
                    if b - 1 > p {
                        lemma_text_lt_transitive(x, k[p], k[b - 1]);
                    }
                    lemma_text_lt_transitive(k[a], x, k[b - 1]);
                } else if a == p {
                    assert(k2[b] == k[b - 1]);
                    assert(k[p] != x) by {
                        assert(k.to_set().contains(k[p]));
                    }
                    lemma_text_lt_total(k[p], x);
                    if b - 1 > p {
                        lemma_text_lt_transitive(x, k[p], k[b - 1]);
                    }
                } else {
                    assert(k2[a] == k[a - 1] && k2[b] == k[b - 1]);
                }
            }
        }
        assert(k2.to_set() =~= s) by {
            assert forall|y: Seq<char>| #[trigger] s.contains(y) implies k2.to_set().contains(y) by {
                if y == x {
                    assert(k2[p] == x);
                } else {
                    assert(r.contains(y));
                    assert(k.to_set().contains(y));
                    let j = choose|j: int| 0 <= j < k.len() && k[j] == y;
                    if j < p {
                        assert(k2[j] == y);
                    } else {
                        assert(k2[j + 1] == y);
                    }
                }
            }
            assert forall|y: Seq<char>| k2.to_set().contains(y) implies #[trigger] s.contains(y) by {
                let j = choose|j: int| 0 <= j < k2.len() && k2[j] == y;
                if j < p {
                    assert(k.to_set().contains(k[j]));
                } else if j > p {
                    assert(k.to_set().contains(k[j - 1]));
                }
            }
        }
        assert(exists|w: Seq<Seq<char>>| strictly_sorted(w) && w.to_set() == s);
    }
}

/// A map from string ids to values, kept sorted by id.
#[derive(Debug)]
pub struct IdMap<V> {
    keys: Vec<String>,
    vals: Vec<V>,
}

impl<V> IdMap<V> {
    /// The ids, in increasing order.
    pub closed spec fn key_seq(&self) -> Seq<Seq<char>> {
        self.keys@.map_values(|k: String| k@)
    }

    /// The values, in the order of their ids.
    pub closed spec fn val_seq(&self) -> Seq<V> {
        self.vals@
    }

    /// The ids are strictly increasing and each has a value.
    pub open spec fn wf(&self) -> bool {
        &&& self.key_seq().len() == self.val_seq().len()
        &&& strictly_sorted(self.key_seq())
    }

    /// The map from each id to its value.
    pub open spec fn view(&self) -> Map<Seq<char>, V> {
        Map::new(
            |k: Seq<char>| self.key_seq().contains(k),
            |k: Seq<char>| self.val_seq()[self.key_seq().index_of(k)],
        )
    }

    /// The value at position `i` is the value of the id at position `i`.
    pub proof fn lemma_at(&self, i: int)
        requires
            self.wf(),
            0 <= i < self.key_seq().len(),
        ensures
            self@.contains_key(self.key_seq()[i]),
            self@[self.key_seq()[i]] == self.val_seq()[i],
    {
        let k = self.key_seq()[i];
        assert(self.key_seq().contains(k));
        let j = self.key_seq().index_of(k);
        lemma_sorted_index(self.key_seq(), i, j);
    }

    /// The domain of the map is the set of its ids.
    pub proof fn lemma_dom(&self)
        requires
            self.wf(),
        ensures
            self@.dom() == self.key_seq().to_set(),
            self.key_seq() == sorted_ids(self@.dom()),
    {
        assert(self@.dom() =~= self.key_seq().to_set());
        lemma_sorted_is_sorted_ids(self.key_seq());
    }

    /// An empty map.
    pub fn new() -> (r: Self)
        ensures
            r.wf(),
            r.key_seq() == Seq::<Seq<char>>::empty(),
            r@ == Map::<Seq<char>, V>::empty(),
    {
        let r = IdMap { keys: Vec::new(), vals: Vec::new() };
        assert(r.key_seq() =~= Seq::<Seq<char>>::empty());
        assert(r@ =~= Map::<Seq<char>, V>::empty());
        r
    }

    /// The number of ids.
    pub fn len(&self) -> (r: usize)
        requires
            self.wf(),
        ensures
            r == self.key_seq().len(),
            r == self@.dom().len(),
    {
        proof {
            self.lemma_len();
        }
        self.keys.len()
    }

    /// The number of ids is the size of the domain.
    pub proof fn lemma_len(&self)
        requires
            self.wf(),
        ensures
            self@.dom().len() == self.key_seq().len(),
            self@.dom().finite(),
    {
        self.lemma_dom();
        self.lemma_no_dup();
        self.key_seq().unique_seq_to_set();
        vstd::seq_lib::seq_to_set_is_finite(self.key_seq());
    }

    proof fn lemma_no_dup(&self)
        requires
            self.wf(),
        ensures
            self.key_seq().no_duplicates(),
    {
        assert forall|i: int, j: int|
            0 <= i < self.key_seq().len() && 0 <= j < self.key_seq().len() && i != j implies self.key_seq()[i]
            != self.key_seq()[j] by {
            if self.key_seq()[i] == self.key_seq()[j] {
                lemma_sorted_index(self.key_seq(), i, j);
            }
        }
    }

    /// The id at position `i`.
    pub fn key_at(&self, i: usize) -> (r: &String)
        requires
            self.wf(),
            i < self.key_seq().len(),
        ensures
            r@ == self.key_seq()[i as int],
    {
        &self.keys[i]
    }

    /// The value at position `i`.
    pub fn val_at(&self, i: usize) -> (r: &V)
        requires
            self.wf(),
            i < self.key_seq().len(),
        ensures
            *r == self.val_seq()[i as int],
    {
        &self.vals[i]
    }

    /// The first position whose id is not smaller than `k`, and whether the
    /// id there is `k`.
    fn position(&self, k: &str) -> (r: (bool, usize))
        requires
            self.wf(),
        ensures
            r.1 <= self.key_seq().len(),
            forall|j: int| 0 <= j < r.1 ==> text_lt(#[trigger] self.key_seq()[j], k@),
            r.1 < self.key_seq().len() ==> !text_lt(self.key_seq()[r.1 as int], k@),
            r.0 == (r.1 < self.key_seq().len() && self.key_seq()[r.1 as int] == k@),
            r.0 == self.key_seq().contains(k@),
    {
        let mut i: usize = 0;
        let n = self.keys.len();
        while i < n
            invariant
                n == self.key_seq().len(),
                self.wf(),
                i <= n,
                forall|j: int| 0 <= j < i ==> text_lt(#[trigger] self.key_seq()[j], k@),
            decreases n - i,
        {
            let o = compare_text(self.keys[i].as_str(), k);
            assert(self.keys@[i as int]@ == self.key_seq()[i as int]);
            match o {
                TextOrder::Less => {
                    i = i + 1;
                },
                TextOrder::Equal => {
                    proof {
                        lemma_text_lt_irreflexive(k@);
                    }
                    return (true, i);
                },
                TextOrder::Greater => {
                    proof {
                        assert(!text_lt(self.key_seq()[i as int], k@)) by {
                            if text_lt(self.key_seq()[i as int], k@) {
                                lemma_text_lt_transitive(k@, self.key_seq()[i as int], k@);
                                lemma_text_lt_irreflexive(k@);
                            }
                        }
                        assert forall|j: int| 0 <= j < n implies self.key_seq()[j] != k@ by {
                            if j < i {
                                lemma_text_lt_irreflexive(k@);
                            } else if j > i {
                                assert(text_lt(self.key_seq()[i as int], self.key_seq()[j]));
                                lemma_text_lt_transitive(k@, self.key_seq()[i as int], self.key_seq()[j]);
                                lemma_text_lt_irreflexive(k@);
                            }
                        }
                    }
                    return (false, i);
                },
            }
        }
        proof {
            assert forall|j: int| 0 <= j < n implies self.key_seq()[j] != k@ by {
                lemma_text_lt_irreflexive(k@);
            }
        }
        (false, i)
    }

    /// Whether `k` is an id of the map.
    pub fn contains_key(&self, k: &str) -> (r: bool)
        requires
            self.wf(),
        ensures
            r == self@.contains_key(k@),
    {
        self.position(k).0
    }

    /// The value of `k`, if it has one.
    pub fn get(&self, k: &str) -> (r: Option<&V>)
        requires
            self.wf(),
        ensures
            r is Some == self@.contains_key(k@),
            r matches Some(v) ==> *v == self@[k@],
    {
        let (found, i) = self.position(k);
        if found {
            proof {
                self.lemma_at(i as int);
            }
            Some(&self.vals[i])
        } else {
            None
        }
    }

    /// Sets the value of `k`, replacing any it had.
    pub fn insert(&mut self, k: String, v: V)
        requires
            old(self).wf(),
        ensures
            final(self).wf(),
            final(self)@ == old(self)@.insert(k@, v),
    {
        let (found, i) = self.position(k.as_str());
        let ghost ks0 = self.key_seq();
        let ghost vs0 = self.val_seq();
        if found {
            self.vals.set(i, v);
            assert(self.key_seq() == ks0);
            proof {
                assert forall|key: Seq<char>| #[trigger] self@.contains_key(key) == old(self)@.insert(k@, v).contains_key(key) by {}
                assert forall|key: Seq<char>| self@.contains_key(key) implies #[trigger] self@[key] == old(self)@.insert(k@, v)[key] by {
                    assert(ks0.contains(key));
                    let j = ks0.index_of(key);
                    if key == k@ {
                        lemma_sorted_index(ks0, j, i as int);
                    } else {
                        old(self).lemma_at(j);
                    }
                }
                assert(self@ =~= old(self)@.insert(k@, v));
            }
        } else {
            let ghost kv = k@;
            self.keys.insert(i, k);
            self.vals.insert(i, v);
            proof {
                let ks = self.key_seq();
                assert(ks =~= ks0.insert(i as int, kv));
                assert(self.val_seq() =~= vs0.insert(i as int, v));
                assert(strictly_sorted(ks)) by {
                    assert forall|a: int, b: int| 0 <= a < b < ks.len() implies text_lt(
                        #[trigger] ks[a],
                        #[trigger] ks[b],
                    ) by {
                        if b < i {
                        } else if b == i {
                        } else if a < i {
                            // ks[a] < kv <= ks0[b-1] == ks[b]
                            lemma_text_lt_total(kv, ks0[b - 1]);
                            if text_lt(ks0[b - 1], kv) {
                                lemma_text_lt_transitive(ks0[i as int], ks0[b - 1], kv);
                            }
                            lemma_text_lt_transitive(ks[a], kv, ks0[b - 1]);
                        } else if a == i {
                            lemma_text_lt_total(kv, ks0[b - 1]);
                            if text_lt(ks0[b - 1], kv) {
                                if b - 1 > i {
                                    lemma_text_lt_transitive(ks0[i as int], ks0[b - 1], kv);
                                }
                            }
                        } else {
                        }
                    }
                }
                assert forall|key: Seq<char>| #[trigger] self@.contains_key(key) == old(self)@.insert(kv, v).contains_key(key) by {
                    if ks0.contains(key) {
                        let j = choose|j: int| 0 <= j < ks0.len() && ks0[j] == key;
                        if j < i {
                            assert(ks[j] == key);
                        } else {
                            assert(ks[j + 1] == key);
                        }
                    }
                    if ks.contains(key) {
                        let j = choose|j: int| 0 <= j < ks.len() && ks[j] == key;
                        if j < i {
                            assert(ks0[j] == key);
                        } else if j > i {
                            assert(ks0[j - 1] == key);
                        }
                    }
                    assert(ks[i as int] == kv);
                }
                assert forall|key: Seq<char>| self@.contains_key(key) implies #[trigger] self@[key] == old(self)@.insert(kv, v)[key] by {
                    let j = ks.index_of(key);
                    self.lemma_at(j);
                    if j < i {
                        old(self).lemma_at(j);
                    } else if j > i {
                        old(self).lemma_at(j - 1);
                    }
                    if key == kv {
                        lemma_sorted_index(ks, j, i as int);
                    }
                }
                assert(self@ =~= old(self)@.insert(kv, v));
            }
        }
    }

    /// Adds `k` after every id of the map.
    pub fn push_last(&mut self, k: String, v: V)
        requires
            old(self).wf(),
            forall|j: int| 0 <= j < old(self).key_seq().len() ==> text_lt(#[trigger] old(self).key_seq()[j], k@),
        ensures
            final(self).wf(),
            final(self).key_seq() == old(self).key_seq().push(k@),
            final(self).val_seq() == old(self).val_seq().push(v),
    {
        self.keys.push(k);
        self.vals.push(v);
        assert(self.key_seq() =~= old(self).key_seq().push(k@));
        assert(self.val_seq() =~= old(self).val_seq().push(v));
    }

    /// Removes `k` and returns its value, if it had one.
    pub fn remove(&mut self, k: &str) -> (r: Option<V>)
        requires
            old(self).wf(),
        ensures
            final(self).wf(),
            final(self)@ == old(self)@.remove(k@),
            r is Some == old(self)@.contains_key(k@),
            r matches Some(v) ==> v == old(self)@[k@],
            final(self).key_seq().len() == old(self).key_seq().len() - if r is Some {
                1int
            } else {
                0int
            },
            forall|j: int| 0 <= j < final(self).key_seq().len() ==> old(self).key_seq().contains(#[trigger] final(self).key_seq()[j]),
    {
        let (found, i) = self.position(k);
        if !found {
            assert(self@ =~= old(self)@.remove(k@));
            return None;
        }
        let ghost ks0 = self.key_seq();
        let ghost vs0 = self.val_seq();
        proof {
            old(self).lemma_at(i as int);
        }
        let _ = self.keys.remove(i);
        let v = self.vals.remove(i);
        proof {
            let ks = self.key_seq();
            assert(ks =~= ks0.remove(i as int));
            assert(self.val_seq() =~= vs0.remove(i as int));
            assert(strictly_sorted(ks)) by {
                assert forall|a: int, b: int| 0 <= a < b < ks.len() implies text_lt(
                    #[trigger] ks[a],
                    #[trigger] ks[b],
                ) by {
                    let a0 = if a < i { a } else { a + 1 };
                    let b0 = if b < i { b } else { b + 1 };
                    assert(ks[a] == ks0[a0] && ks[b] == ks0[b0]);
                }
            }
            assert forall|key: Seq<char>| #[trigger] self@.contains_key(key) == old(self)@.remove(k@).contains_key(key) by {
                if ks0.contains(key) {
                    let j = choose|j: int| 0 <= j < ks0.len() && ks0[j] == key;
                    if j < i {
                        assert(ks[j] == key);
                    } else if j > i {
                        assert(ks[j - 1] == key);
                    } else {
                    }
                }
                if ks.contains(key) {
                    let j = choose|j: int| 0 <= j < ks.len() && ks[j] == key;
                    if j < i {
                        assert(ks0[j] == key);
                        if key == k@ { lemma_sorted_index(ks0, j, i as int); }
                    } else {
                        assert(ks0[j + 1] == key);
                        if key == k@ { lemma_sorted_index(ks0, j + 1, i as int); }
                    }
                }
            }
            assert forall|key: Seq<char>| self@.contains_key(key) implies #[trigger] self@[key] == old(self)@.remove(k@)[key] by {
                let j = ks.index_of(key);
                self.lemma_at(j);
                if j < i {
                    old(self).lemma_at(j);
                } else {
                    old(self).lemma_at(j + 1);
                }
            }
            assert(self@ =~= old(self)@.remove(k@));
            assert forall|j: int| 0 <= j < ks.len() implies ks0.contains(#[trigger] ks[j]) by {
                if j < i {
                    assert(ks0[j] == ks[j]);
                } else {
                    assert(ks0[j + 1] == ks[j]);
                }
            }
        }
        Some(v)
    }
}

} // verus!
