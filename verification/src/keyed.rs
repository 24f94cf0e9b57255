//! Sorted association lists keyed by text: the model of the maps the
//! program keeps (JSON objects, palettes, agents), whose keys strictly
//! increase in code point order so that every key occurs once.

use vstd::prelude::*;
use crate::strings::{seq_lt, lemma_seq_lt_irreflexive, lemma_seq_lt_total, lemma_seq_lt_transitive, str_eq, string_lt};

verus! {

/// Keys strictly increase along the members.
pub open spec fn keys_sorted<V>(e: Seq<(Seq<char>, V)>) -> bool {
    forall|i: int, j: int| 0 <= i < j < e.len() ==> seq_lt(#[trigger] e[i].0, #[trigger] e[j].0)
}

/// Some member has key `k`.
pub open spec fn has_key<V>(e: Seq<(Seq<char>, V)>, k: Seq<char>) -> bool {
    exists|i: int| 0 <= i < e.len() && #[trigger] e[i].0 == k
}

/// `x` is one of the members of `e`.
pub open spec fn has_entry<V>(e: Seq<(Seq<char>, V)>, x: (Seq<char>, V)) -> bool {
    exists|j: int| 0 <= j < e.len() && e[j] == x
}

/// Position of the member with key `k`, or -1.
pub open spec fn key_index<V>(e: Seq<(Seq<char>, V)>, k: Seq<char>) -> int {
    if has_key(e, k) {
        choose|i: int| 0 <= i < e.len() && #[trigger] e[i].0 == k
    } else {
        -1
    }
}

/// The value of the member with key `k`.
pub open spec fn entries_get<V>(e: Seq<(Seq<char>, V)>, k: Seq<char>) -> Option<V> {
    if has_key(e, k) {
        Some(e[key_index(e, k)].1)
    } else {
        None
    }
}

/// Number of members whose key sorts before `k`, i.e. the position at which a
/// member with key `k` belongs.
pub open spec fn insert_pos<V>(e: Seq<(Seq<char>, V)>, k: Seq<char>) -> int {
    choose|p: int| is_insert_pos(e, k, p)
}

/// Every member before `p` sorts before `k`, and the one at `p` does not.
pub open spec fn is_insert_pos<V>(e: Seq<(Seq<char>, V)>, k: Seq<char>, p: int) -> bool {
    0 <= p <= e.len() && (forall|j: int| 0 <= j < p ==> seq_lt(#[trigger] e[j].0, k)) && (p
        < e.len() ==> !seq_lt(e[p].0, k))
}

/// `e` with member `k` set to `v`: replaced in place when present, inserted at
/// its sorted position otherwise.
pub open spec fn entries_put<V>(e: Seq<(Seq<char>, V)>, k: Seq<char>, v: V) -> Seq<(Seq<char>, V)> {
    if has_key(e, k) {
        e.update(key_index(e, k), (k, v))
    } else {
        e.insert(insert_pos(e, k), (k, v))
    }
}

/// `e` without the member with key `k`.
pub open spec fn entries_remove<V>(e: Seq<(Seq<char>, V)>, k: Seq<char>) -> Seq<(Seq<char>, V)> {
    if has_key(e, k) {
        e.remove(key_index(e, k))
    } else {
        e
    }
}

pub proof fn lemma_sorted_unique<V>(e: Seq<(Seq<char>, V)>, i: int, j: int)
    requires
        keys_sorted(e),
        0 <= i < e.len(),
        0 <= j < e.len(),
        e[i].0 == e[j].0,
    ensures
        i == j,
{
    if i < j {
        lemma_seq_lt_irreflexive(e[i].0);
        assert(seq_lt(e[i].0, e[j].0));
    } else if j < i {
        lemma_seq_lt_irreflexive(e[i].0);
        assert(seq_lt(e[j].0, e[i].0));
    }
}

pub proof fn lemma_key_index<V>(e: Seq<(Seq<char>, V)>, k: Seq<char>, i: int)
    requires
        keys_sorted(e),
        0 <= i < e.len(),
        e[i].0 == k,
    ensures
        has_key(e, k),
        key_index(e, k) == i,
        entries_get(e, k) == Some(e[i].1),
{
    assert(has_key(e, k));
    let j = key_index(e, k);
    lemma_sorted_unique(e, i, j);
}

pub proof fn lemma_key_index_found<V>(e: Seq<(Seq<char>, V)>, k: Seq<char>)
    requires
        has_key(e, k),
    ensures
        0 <= key_index(e, k) < e.len(),
        e[key_index(e, k)].0 == k,
{
}

pub proof fn lemma_insert_pos<V>(e: Seq<(Seq<char>, V)>, k: Seq<char>, p: int)
    requires
        keys_sorted(e),
        0 <= p <= e.len(),
        forall|j: int| 0 <= j < p ==> seq_lt(#[trigger] e[j].0, k),
        p < e.len() ==> !seq_lt(e[p].0, k),
    ensures
        insert_pos(e, k) == p,
{
    assert(is_insert_pos(e, k, p));
    let q = insert_pos(e, k);
    assert(is_insert_pos(e, k, q));
    if q < p {
        assert(seq_lt(e[q].0, k));
    } else if p < q {
        assert(seq_lt(e[p].0, k));
    }
}

/// The first position at or after `q` whose key does not sort before `k`.
proof fn first_not_before<V>(e: Seq<(Seq<char>, V)>, k: Seq<char>, q: int) -> (p: int)
    requires
        0 <= q <= e.len(),
        forall|j: int| 0 <= j < q ==> seq_lt(#[trigger] e[j].0, k),
    ensures
        q <= p <= e.len(),
        forall|j: int| 0 <= j < p ==> seq_lt(#[trigger] e[j].0, k),
        p < e.len() ==> !seq_lt(e[p].0, k),
    decreases e.len() - q,
{
    if q < e.len() && seq_lt(e[q].0, k) {
        first_not_before(e, k, q + 1)
    } else {
        q
    }
}

/// Inserting a key that is absent at its sorted position keeps keys sorted.
pub proof fn lemma_put_sorted<V>(e: Seq<(Seq<char>, V)>, k: Seq<char>, v: V)
    requires
        keys_sorted(e),
    ensures
        keys_sorted(entries_put(e, k, v)),
        entries_put(e, k, v).len() == if has_key(e, k) { e.len() } else { e.len() + 1 },
        forall|m: Seq<char>| #[trigger] entries_get(entries_put(e, k, v), m) == if m == k {
            Some(v)
        } else {
            entries_get(e, m)
        },
        forall|i: int|
            0 <= i < entries_put(e, k, v).len() ==> (#[trigger] entries_put(e, k, v)[i] == (k, v)
                || has_entry(e, entries_put(e, k, v)[i])),
{
    let r = entries_put(e, k, v);
    if has_key(e, k) {
        let idx = key_index(e, k);
        assert(keys_sorted(r)) by {
            assert forall|i: int, j: int| 0 <= i < j < r.len() implies seq_lt(
                #[trigger] r[i].0,
                #[trigger] r[j].0,
            ) by {
                assert(r[i].0 == e[i].0);
                assert(r[j].0 == e[j].0);
            }
        }
        assert forall|m: Seq<char>| #[trigger] entries_get(r, m) == if m == k {
            Some(v)
        } else {
            entries_get(e, m)
        } by {
            if m == k {
                lemma_key_index(r, k, idx);
            } else if has_key(e, m) {
                let j = key_index(e, m);
                assert(r[j].0 == m);
                lemma_key_index(r, m, j);
            } else {
                if has_key(r, m) {
                    let j = choose|j: int| 0 <= j < r.len() && r[j].0 == m;
                    assert(e[j].0 == m);
                }
            }
        }
        assert forall|i: int| 0 <= i < r.len() implies (#[trigger] r[i] == (k, v) || has_entry(
            e,
            r[i],
        )) by {
            if i != idx {
                assert(e[i] == r[i]);
            }
        }
    } else {
        let p = insert_pos(e, k);
        // the sorted position exists: the first member not before `k`
        let q = first_not_before(e, k, 0);
        lemma_insert_pos(e, k, q);
        assert(p == q);
        assert(keys_sorted(r)) by {
            assert forall|i: int, j: int| 0 <= i < j < r.len() implies seq_lt(
                #[trigger] r[i].0,
                #[trigger] r[j].0,
            ) by {
                if j < p {
                    assert(r[i] == e[i] && r[j] == e[j]);
                } else if j == p {
                    assert(r[i] == e[i]);
                } else if i < p {
                    assert(r[i] == e[i] && r[j] == e[j - 1]);
                    if i < j - 1 {
                        assert(seq_lt(e[i].0, e[j - 1].0));
                    }
                } else if i == p {
                    assert(r[j] == e[j - 1]);
                    // e[p] is not before k and differs from k
                    if e[j - 1].0 == k {
                        assert(has_key(e, k));
                    }
                    if j - 1 == p {
                        lemma_seq_lt_total(k, e[p].0);
                    } else {
                        if e[p].0 == k {
                            assert(has_key(e, k));
                        }
                        lemma_seq_lt_total(k, e[p].0);
                        assert(seq_lt(e[p].0, e[j - 1].0));
                        lemma_seq_lt_transitive(k, e[p].0, e[j - 1].0);
                    }
                } else {
                    assert(r[i] == e[i - 1] && r[j] == e[j - 1]);
                }
            }
        }
        assert forall|m: Seq<char>| #[trigger] entries_get(r, m) == if m == k {
            Some(v)
        } else {
            entries_get(e, m)
        } by {
            if m == k {
                assert(r[p].0 == k);
                lemma_key_index(r, k, p);
            } else if has_key(e, m) {
                let j = key_index(e, m);
                if j < p {
                    assert(r[j] == e[j]);
                    lemma_key_index(r, m, j);
                } else {
                    assert(r[j + 1] == e[j]);
                    lemma_key_index(r, m, j + 1);
                }
            } else {
                if has_key(r, m) {
                    let j = choose|j: int| 0 <= j < r.len() && r[j].0 == m;
                    if j < p {
                        assert(e[j].0 == m);
                    } else if j > p {
                        assert(e[j - 1].0 == m);
                    }
                }
            }
        }
        assert forall|i: int| 0 <= i < r.len() implies (#[trigger] r[i] == (k, v) || has_entry(
            e,
            r[i],
        )) by {
            if i < p {
                assert(e[i] == r[i]);
            } else if i > p {
                assert(e[i - 1] == r[i]);
            }
        }
    }
}

/// Removing a member keeps keys sorted and drops exactly that key.
#[verifier::rlimit(40)]
pub proof fn lemma_remove_sorted<V>(e: Seq<(Seq<char>, V)>, k: Seq<char>)
    requires
        keys_sorted(e),
    ensures
        keys_sorted(entries_remove(e, k)),
        forall|m: Seq<char>| #[trigger] entries_get(entries_remove(e, k), m) == if m == k {
            None
        } else {
            entries_get(e, m)
        },
        forall|i: int|
            0 <= i < entries_remove(e, k).len() ==> has_entry(e, #[trigger] entries_remove(e, k)[i]),
{
    let r = entries_remove(e, k);
    if has_key(e, k) {
        let p = key_index(e, k);
        assert(keys_sorted(r)) by {
            assert forall|i: int, j: int| 0 <= i < j < r.len() implies seq_lt(
                #[trigger] r[i].0,
                #[trigger] r[j].0,
            ) by {
                let ii = if i < p { i } else { i + 1 };
                let jj = if j < p { j } else { j + 1 };
                assert(r[i] == e[ii] && r[j] == e[jj]);
            }
        }
        assert forall|m: Seq<char>| #[trigger] entries_get(r, m) == if m == k {
            None
        } else {
            entries_get(e, m)
        } by {
            if m == k {
                if has_key(r, m) {
                    let j = choose|j: int| 0 <= j < r.len() && r[j].0 == m;
                    let jj = if j < p { j } else { j + 1 };
                    assert(e[jj].0 == k);
                    lemma_sorted_unique(e, jj, p);
                }
            } else if has_key(e, m) {
                let j = key_index(e, m);
                if j < p {
                    assert(r[j] == e[j]);
                    lemma_key_index(r, m, j);
                } else {
                    assert(r[j - 1] == e[j]);
                    lemma_key_index(r, m, j - 1);
                }
            } else {
                if has_key(r, m) {
                    let j = choose|j: int| 0 <= j < r.len() && r[j].0 == m;
                    let jj = if j < p { j } else { j + 1 };
                    assert(e[jj].0 == m);
                }
            }
        }
        assert forall|i: int| 0 <= i < r.len() implies has_entry(e, #[trigger] r[i]) by {
            let ii = if i < p { i } else { i + 1 };
            assert(e[ii] == r[i]);
        }
    } else {
        assert forall|i: int| 0 <= i < r.len() implies has_entry(e, #[trigger] r[i]) by {
            assert(e[i] == r[i]);
        }
    }
}

/// The members of `oe` without the last one.
pub proof fn lemma_drop_last_get<V>(oe: Seq<(Seq<char>, V)>)
    requires
        keys_sorted(oe),
        oe.len() > 0,
    ensures
        keys_sorted(oe.drop_last()),
        entries_get(oe, oe.last().0) == Some(oe.last().1),
        forall|m: Seq<char>| #[trigger] entries_get(oe.drop_last(), m) == if m == oe.last().0 {
            None
        } else {
            entries_get(oe, m)
        },
{
    let d = oe.drop_last();
    let n = oe.len() - 1;
    lemma_key_index(oe, oe.last().0, n);
    assert forall|m: Seq<char>| #[trigger] entries_get(d, m) == if m == oe.last().0 {
        None
    } else {
        entries_get(oe, m)
    } by {
        if has_key(d, m) {
            let j = choose|j: int| 0 <= j < d.len() && d[j].0 == m;
            assert(oe[j] == d[j]);
            lemma_key_index(d, m, j);
            if m == oe.last().0 {
                lemma_sorted_unique(oe, j, n);
            } else {
                lemma_key_index(oe, m, j);
            }
        } else if m != oe.last().0 && has_key(oe, m) {
            let j = key_index(oe, m);
            assert(j != n);
            assert(d[j] == oe[j]);
        }
    }
}

/// Two sorted member lists with the same members are equal.
pub proof fn lemma_entries_ext<V>(e1: Seq<(Seq<char>, V)>, e2: Seq<(Seq<char>, V)>)
    requires
        keys_sorted(e1),
        keys_sorted(e2),
        forall|m: Seq<char>| #[trigger] entries_get(e1, m) == entries_get(e2, m),
    ensures
        e1 == e2,
    decreases e1.len() + e2.len(),
{
    if e1.len() == 0 {
        if e2.len() > 0 {
            lemma_key_index(e2, e2[0].0, 0);
            assert(entries_get(e1, e2[0].0) is None);
        }
        assert(e1 =~= e2);
    } else if e2.len() == 0 {
        lemma_key_index(e1, e1[0].0, 0);
        assert(entries_get(e2, e1[0].0) is None);
    } else {
        let k1 = e1[0].0;
        let k2 = e2[0].0;
        lemma_key_index(e1, k1, 0);
        lemma_key_index(e2, k2, 0);
        assert(entries_get(e2, k1) is Some);
        assert(entries_get(e1, k2) is Some);
        let j2 = key_index(e2, k1);
        let j1 = key_index(e1, k2);
        // the smallest keys of both lists coincide
        if k1 != k2 {
            assert(j2 > 0);
            assert(j1 > 0);
            assert(seq_lt(e2[0].0, e2[j2].0));
            assert(seq_lt(e1[0].0, e1[j1].0));
            crate::strings::lemma_seq_lt_asymmetric(k2, k1);
        }
        assert(e1[0] == e2[0]);
        let t1 = e1.drop_first();
        let t2 = e2.drop_first();
        assert(keys_sorted(t1)) by {
            assert forall|i: int, j: int| 0 <= i < j < t1.len() implies seq_lt(
                #[trigger] t1[i].0,
                #[trigger] t1[j].0,
            ) by {
                assert(t1[i] == e1[i + 1] && t1[j] == e1[j + 1]);
            }
        }
        assert(keys_sorted(t2)) by {
            assert forall|i: int, j: int| 0 <= i < j < t2.len() implies seq_lt(
                #[trigger] t2[i].0,
                #[trigger] t2[j].0,
            ) by {
                assert(t2[i] == e2[i + 1] && t2[j] == e2[j + 1]);
            }
        }
        lemma_drop_first_get(e1);
        lemma_drop_first_get(e2);
        assert forall|m: Seq<char>| #[trigger] entries_get(t1, m) == entries_get(t2, m) by {
            assert(entries_get(e1, m) == entries_get(e2, m));
        }
        lemma_entries_ext(t1, t2);
        assert(e1 =~= seq![e1[0]] + t1);
        assert(e2 =~= seq![e2[0]] + t2);
    }
}

/// The members of `e` without the first one.
pub proof fn lemma_drop_first_get<V>(e: Seq<(Seq<char>, V)>)
    requires
        keys_sorted(e),
        e.len() > 0,
    ensures
        forall|m: Seq<char>| #[trigger] entries_get(e.drop_first(), m) == if m == e[0].0 {
            None
        } else {
            entries_get(e, m)
        },
{
    let d = e.drop_first();
    lemma_key_index(e, e[0].0, 0);
    assert forall|m: Seq<char>| #[trigger] entries_get(d, m) == if m == e[0].0 {
        None
    } else {
        entries_get(e, m)
    } by {
        if has_key(d, m) {
            let j = choose|j: int| 0 <= j < d.len() && d[j].0 == m;
            assert(e[j + 1] == d[j]);
            if m == e[0].0 {
                lemma_sorted_unique(e, j + 1, 0);
            } else {
                lemma_key_index(e, m, j + 1);
                assert forall|a: int, b: int| 0 <= a < b < d.len() implies seq_lt(
                    #[trigger] d[a].0,
                    #[trigger] d[b].0,
                ) by {
                    assert(d[a] == e[a + 1] && d[b] == e[b + 1]);
                }
                lemma_key_index(d, m, j);
            }
        } else if m != e[0].0 && has_key(e, m) {
            let j = key_index(e, m);
            assert(j != 0);
            assert(d[j - 1] == e[j]);
        }
    }
}


/// A map from text keys to values, kept sorted by key.
#[derive(Debug, PartialEq)]
pub struct KeyedMap<V> {
    pub entries: Vec<(String, V)>,
}

impl<V: View> View for KeyedMap<V> {
    type V = Seq<(Seq<char>, V::V)>;

    open spec fn view(&self) -> Seq<(Seq<char>, V::V)> {
        Seq::new(self.entries@.len(), |i: int| (self.entries@[i].0@, self.entries@[i].1@))
    }
}

impl<V: View> KeyedMap<V> {
    /// The empty map.
    pub fn new() -> (m: Self)
        ensures
            m@ == Seq::<(Seq<char>, V::V)>::empty(),
    {
        let m = KeyedMap { entries: Vec::new() };
        proof {
            assert(m@ =~= Seq::<(Seq<char>, V::V)>::empty());
        }
        m
    }

    pub fn len(&self) -> (n: usize)
        ensures
            n == self@.len(),
    {
        self.entries.len()
    }

    /// Position of the entry with key `k`.
    pub fn find(&self, k: &str) -> (res: Option<usize>)
        requires
            keys_sorted(self@),
        ensures
            res is Some <==> has_key(self@, k@),
            res matches Some(i) ==> i < self@.len() && i == key_index(self@, k@) && self@[i as int].0
                == k@,
    {
        let mut i: usize = 0;
        while i < self.entries.len()
            invariant
                i <= self.entries.len(),
                keys_sorted(self@),
                forall|j: int| 0 <= j < i ==> self@[j].0 != k@,
            decreases self.entries.len() - i,
        {
            if str_eq(self.entries[i].0.as_str(), k) {
                proof {
                    lemma_key_index(self@, k@, i as int);
                }
                return Some(i);
            }
            i = i + 1;
        }
        None
    }

    /// The value of key `k`.
    pub fn get(&self, k: &str) -> (res: Option<&V>)
        requires
            keys_sorted(self@),
        ensures
            res matches Some(v) ==> entries_get(self@, k@) == Some(v@),
            res is None ==> entries_get(self@, k@) is None,
    {
        match self.find(k) {
            Some(i) => Some(&self.entries[i].1),
            None => None,
        }
    }

    /// Key `k` is present.
    pub fn contains_key(&self, k: &str) -> (res: bool)
        requires
            keys_sorted(self@),
        ensures
            res == has_key(self@, k@),
    {
        self.find(k).is_some()
    }

    /// Sets key `k` to `v`, keeping keys sorted; returns whether a value was
    /// replaced.
    pub fn insert(&mut self, k: String, v: V) -> (replaced: bool)
        requires
            keys_sorted(old(self)@),
        ensures
            final(self)@ == entries_put(old(self)@, k@, v@),
            keys_sorted(final(self)@),
            replaced == has_key(old(self)@, k@),
    {
        proof {
            lemma_put_sorted(self@, k@, v@);
        }
        match self.find(k.as_str()) {
            Some(i) => {
                let ghost kv = k@;
                let ghost vv = v@;
                self.entries.set(i, (k, v));
                proof {
                    assert(self@ =~= old(self)@.update(i as int, (kv, vv)));
                }
                true
            },
            None => {
                let mut p: usize = 0;
                while p < self.entries.len() && string_lt(&self.entries[p].0, &k)
                    invariant
                        p <= self.entries.len(),
                        self@ == old(self)@,
                        forall|j: int| 0 <= j < p ==> seq_lt(#[trigger] self@[j].0, k@),
                    decreases self.entries.len() - p,
                {
                    p = p + 1;
                }
                proof {
                    lemma_insert_pos(self@, k@, p as int);
                }
                let ghost kv = k@;
                let ghost vv = v@;
                self.entries.insert(p, (k, v));
                proof {
                    assert(self@ =~= old(self)@.insert(p as int, (kv, vv)));
                }
                false
            },
        }
    }

    /// The keys, in order.
    pub fn keys(&self) -> (res: Vec<String>)
        ensures
            res@.len() == self@.len(),
            forall|i: int| 0 <= i < res@.len() ==> #[trigger] res@[i]@ == self@[i].0,
    {
        let mut out: Vec<String> = Vec::new();
        let mut i: usize = 0;
        while i < self.entries.len()
            invariant
                i <= self.entries.len(),
                out@.len() == i,
                forall|j: int| 0 <= j < i ==> #[trigger] out@[j]@ == self@[j].0,
            decreases self.entries.len() - i,
        {
            out.push(self.entries[i].0.clone());
            i = i + 1;
        }
        out
    }
}

} // verus!
