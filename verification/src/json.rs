//! The JSON value model: the values that templates, palettes and rendered
//! configurations are made of.
//!
//! Objects keep their members sorted by key in code point order, the order
//! of ordered string maps, so that equal values have equal representations
//! and iteration visits keys in that order.

use vstd::prelude::*;
use crate::strings::{seq_lt, str_eq, string_lt, chars_of, string_from_chars, digit_char};
pub use crate::keyed::{
    keys_sorted, has_key, has_entry, key_index, entries_get, insert_pos, is_insert_pos,
    entries_put, entries_remove, lemma_sorted_unique, lemma_key_index, lemma_key_index_found,
    lemma_insert_pos, lemma_put_sorted, lemma_remove_sorted, lemma_drop_last_get,
    lemma_entries_ext, lemma_drop_first_get,
};

verus! {

/// Object members: key and value, sorted by key.
pub type Entries = Seq<(Seq<char>, Json)>;

/// Mathematical model of a JSON value. Numbers are kept as their canonical
/// decimal text.
pub enum Json {
    Null,
    Bool(bool),
    Number(Seq<char>),
    Str(Seq<char>),
    Array(Seq<Json>),
    Object(Entries),
}

impl Json {
    /// Every object in the value, at any depth, has its keys sorted.
    pub open spec fn wf(self) -> bool
        decreases self,
    {
        match self {
            Json::Array(a) => elements_wf(a),
            Json::Object(e) => keys_sorted(e) && members_wf(e),
            _ => true,
        }
    }

    pub open spec fn is_object(self) -> bool {
        self is Object
    }

    /// The member `k` of an object; `None` for other values.
    pub open spec fn get(self, k: Seq<char>) -> Option<Json> {
        match self {
            Json::Object(e) => entries_get(e, k),
            _ => None,
        }
    }
}

/// The members of a well-formed object are sorted and well formed.
pub proof fn lemma_wf_members(v: Json)
    requires
        v.wf(),
    ensures
        v matches Json::Object(e) ==> keys_sorted(e) && forall|i: int|
            0 <= i < e.len() ==> #[trigger] e[i].1.wf(),
        v matches Json::Array(a) ==> forall|i: int| 0 <= i < a.len() ==> #[trigger] a[i].wf(),
{
    match v {
        Json::Object(e) => lemma_members_wf(e),
        Json::Array(a) => lemma_elements_wf(a),
        _ => {},
    }
}

/// A value whose members or elements are well formed is well formed.
pub proof fn lemma_wf_intro(v: Json)
    requires
        v matches Json::Object(e) ==> keys_sorted(e) && forall|i: int|
            0 <= i < e.len() ==> #[trigger] e[i].1.wf(),
        v matches Json::Array(a) ==> forall|i: int| 0 <= i < a.len() ==> #[trigger] a[i].wf(),
    ensures
        v.wf(),
{
    match v {
        Json::Object(e) => lemma_members_wf(e),
        Json::Array(a) => lemma_elements_wf(a),
        _ => {},
    }
}

/// Every element is well formed.
pub open spec fn elements_wf(a: Seq<Json>) -> bool
    decreases a,
{
    if a.len() == 0 {
        true
    } else {
        proof {
            assert(decreases_to!(a => a[a.len() - 1]));
        }
        elements_wf(a.drop_last()) && a.last().wf()
    }
}

/// Every member value is well formed.
pub open spec fn members_wf(e: Entries) -> bool
    decreases e,
{
    if e.len() == 0 {
        true
    } else {
        proof {
            assert(decreases_to!(e => e[e.len() - 1]));
        }
        members_wf(e.drop_last()) && e.last().1.wf()
    }
}

pub proof fn lemma_elements_wf(a: Seq<Json>)
    ensures
        elements_wf(a) <==> forall|i: int| 0 <= i < a.len() ==> #[trigger] a[i].wf(),
    decreases a.len(),
{
    if a.len() > 0 {
        let d = a.drop_last();
        lemma_elements_wf(d);
        if elements_wf(a) {
            assert forall|i: int| 0 <= i < a.len() implies #[trigger] a[i].wf() by {
                if i < a.len() - 1 {
                    assert(d[i] == a[i]);
                }
            }
        }
        if forall|i: int| 0 <= i < a.len() ==> #[trigger] a[i].wf() {
            assert forall|i: int| 0 <= i < d.len() implies #[trigger] d[i].wf() by {
                assert(d[i] == a[i]);
            }
            assert(a.last().wf());
        }
    }
}

pub proof fn lemma_members_wf(e: Entries)
    ensures
        members_wf(e) <==> forall|i: int| 0 <= i < e.len() ==> #[trigger] e[i].1.wf(),
    decreases e.len(),
{
    if e.len() > 0 {
        let d = e.drop_last();
        lemma_members_wf(d);
        if members_wf(e) {
            assert forall|i: int| 0 <= i < e.len() implies #[trigger] e[i].1.wf() by {
                if i < e.len() - 1 {
                    assert(d[i] == e[i]);
                }
            }
        }
        if forall|i: int| 0 <= i < e.len() ==> #[trigger] e[i].1.wf() {
            assert forall|i: int| 0 <= i < d.len() implies #[trigger] d[i].1.wf() by {
                assert(d[i] == e[i]);
            }
            assert(e.last().1.wf());
        }
    }
}

/// The empty object.
pub open spec fn empty_object() -> Json {
    Json::Object(Seq::empty())
}

/// Recursive merge of `overlay` into `base`: when both are objects, every
/// member of the overlay is merged into the base member of the same key (or
/// added when the base has none); otherwise the overlay replaces the base.
pub open spec fn merge(base: Json, overlay: Json) -> Json
    decreases overlay,
{
    match (base, overlay) {
        (Json::Object(be), Json::Object(oe)) => Json::Object(merge_entries(be, oe)),
        _ => overlay,
    }
}

/// The members `acc` after merging the overlay members `oe` into it, in order.
pub open spec fn merge_entries(acc: Entries, oe: Entries) -> Entries
    decreases oe,
{
    if oe.len() == 0 {
        acc
    } else {
        let prev = merge_entries(acc, oe.drop_last());
        let k = oe.last().0;
        let ov = oe.last().1;
        proof {
            assert(decreases_to!(oe => oe[oe.len() - 1]));
        }
        let nv = match entries_get(prev, k) {
            Some(bv) => merge(bv, ov),
            None => ov,
        };
        entries_put(prev, k, nv)
    }
}

// ---------------------------------------------------------------------------
// Lemmas on sorted members
// ---------------------------------------------------------------------------

/// What a member of the merged object is, given the base and overlay members.
pub open spec fn merge_member(b: Option<Json>, o: Option<Json>) -> Option<Json> {
    match (b, o) {
        (Some(bv), Some(ov)) => Some(merge(bv, ov)),
        (None, Some(ov)) => Some(ov),
        (_, None) => b,
    }
}

/// Merging keeps objects sorted and values well formed.
pub proof fn lemma_merge_wf(b: Json, o: Json)
    requires
        b.wf(),
        o.wf(),
    ensures
        merge(b, o).wf(),
    decreases o,
{
    if let Json::Object(be) = b {
        if let Json::Object(oe) = o {
            lemma_wf_members(b);
            lemma_wf_members(o);
            lemma_merge_entries_wf(be, oe);
            lemma_wf_intro(merge(b, o));
        }
    }
}

pub proof fn lemma_merge_entries_wf(acc: Entries, oe: Entries)
    requires
        keys_sorted(acc),
        forall|i: int| 0 <= i < acc.len() ==> #[trigger] acc[i].1.wf(),
        forall|i: int| 0 <= i < oe.len() ==> #[trigger] oe[i].1.wf(),
    ensures
        keys_sorted(merge_entries(acc, oe)),
        forall|i: int|
            0 <= i < merge_entries(acc, oe).len() ==> #[trigger] merge_entries(acc, oe)[i].1.wf(),
    decreases oe,
{
    if oe.len() > 0 {
        let d = oe.drop_last();
        assert forall|i: int| 0 <= i < d.len() implies #[trigger] d[i].1.wf() by {
            assert(d[i] == oe[i]);
        }
        assert(decreases_to!(oe => d));
        lemma_merge_entries_wf(acc, d);
        let prev = merge_entries(acc, d);
        let k = oe.last().0;
        let ov = oe.last().1;
        assert(ov.wf());
        let nv = match entries_get(prev, k) {
            Some(bv) => merge(bv, ov),
            None => ov,
        };
        if has_key(prev, k) {
            let j = key_index(prev, k);
            assert(prev[j].1.wf());
            assert(decreases_to!(oe => oe[oe.len() - 1]));
            lemma_merge_wf(prev[j].1, ov);
        }
        assert(nv.wf());
        lemma_put_sorted(prev, k, nv);
        let r = entries_put(prev, k, nv);
        assert forall|i: int| 0 <= i < r.len() implies #[trigger] r[i].1.wf() by {
            if r[i] != (k, nv) {
                assert(has_entry(prev, r[i]));
                let j = choose|j: int| 0 <= j < prev.len() && prev[j] == r[i];
                assert(prev[j].1.wf());
            }
        }
    }
}

/// Every member of the merge of two objects is the merge of the members of
/// the same key: the overlay's member when the base has none, the base's
/// member when the overlay has none.
pub proof fn lemma_merge_entries_get(acc: Entries, oe: Entries)
    requires
        keys_sorted(acc),
        keys_sorted(oe),
    ensures
        keys_sorted(merge_entries(acc, oe)),
        forall|m: Seq<char>| #[trigger] entries_get(merge_entries(acc, oe), m) == merge_member(
            entries_get(acc, m),
            entries_get(oe, m),
        ),
    decreases oe.len(),
{
    if oe.len() == 0 {
        assert forall|m: Seq<char>| #[trigger] entries_get(merge_entries(acc, oe), m)
            == merge_member(entries_get(acc, m), entries_get(oe, m)) by {
            assert(!has_key(oe, m));
        }
    } else {
        let d = oe.drop_last();
        lemma_drop_last_get(oe);
        lemma_merge_entries_get(acc, d);
        let prev = merge_entries(acc, d);
        let k = oe.last().0;
        let ov = oe.last().1;
        let nv = match entries_get(prev, k) {
            Some(bv) => merge(bv, ov),
            None => ov,
        };
        lemma_put_sorted(prev, k, nv);
        assert forall|m: Seq<char>| #[trigger] entries_get(merge_entries(acc, oe), m)
            == merge_member(entries_get(acc, m), entries_get(oe, m)) by {
            assert(entries_get(prev, m) == merge_member(entries_get(acc, m), entries_get(d, m)));
        }
    }
}

// ---------------------------------------------------------------------------
// Laws of merging
// ---------------------------------------------------------------------------

/// Merging two objects merges them member by member: a key present in both
/// gets the merge of the two members, a key present in one keeps that member.
pub proof fn law_merge_members(base: Json, overlay: Json, k: Seq<char>)
    requires
        base.wf(),
        overlay.wf(),
        base is Object,
        overlay is Object,
    ensures
        merge(base, overlay) is Object,
        merge(base, overlay).get(k) == merge_member(base.get(k), overlay.get(k)),
{
    match (base, overlay) {
        (Json::Object(be), Json::Object(oe)) => {
            lemma_merge_entries_get(be, oe);
        },
        _ => {},
    }
}

/// An overlay that is not an object replaces the base.
pub proof fn law_merge_replaces(base: Json, overlay: Json)
    requires
        !(overlay is Object) || !(base is Object),
    ensures
        merge(base, overlay) == overlay,
{
}

/// Merging the empty object into an object leaves it unchanged.
pub proof fn law_merge_empty_overlay(base: Json)
    requires
        base is Object,
    ensures
        merge(base, empty_object()) == base,
{
}

/// Merging an object into the empty object gives that object.
pub proof fn law_merge_into_empty(overlay: Json)
    requires
        overlay.wf(),
        overlay is Object,
    ensures
        merge(empty_object(), overlay) == overlay,
{
    match overlay {
        Json::Object(oe) => {
            let e: Entries = Seq::empty();
            lemma_merge_entries_get(e, oe);
            assert forall|m: Seq<char>| #[trigger] entries_get(merge_entries(e, oe), m)
                == entries_get(oe, m) by {
                assert(!has_key(e, m));
            }
            lemma_entries_ext(merge_entries(e, oe), oe);
        },
        _ => {},
    }
}

/// Merging a value into itself leaves it unchanged.
pub proof fn law_merge_idempotent(v: Json)
    requires
        v.wf(),
    ensures
        merge(v, v) == v,
    decreases v,
{
    match v {
        Json::Object(e) => {
            lemma_wf_members(v);
            lemma_merge_entries_get(e, e);
            assert forall|m: Seq<char>| #[trigger] entries_get(merge_entries(e, e), m)
                == entries_get(e, m) by {
                if has_key(e, m) {
                    let j = key_index(e, m);
                    assert(e[j].1.wf());
                    assert(decreases_to!(v => e[j].1));
                    law_merge_idempotent(e[j].1);
                }
            }
            lemma_merge_entries_get(e, e);
            lemma_entries_ext(merge_entries(e, e), e);
        },
        _ => {},
    }
}

/// Merging the same overlay a second time changes nothing.
pub proof fn law_merge_overlay_twice(base: Json, overlay: Json)
    requires
        base.wf(),
        overlay.wf(),
    ensures
        merge(merge(base, overlay), overlay) == merge(base, overlay),
    decreases overlay,
{
    match (base, overlay) {
        (Json::Object(be), Json::Object(oe)) => {
            lemma_wf_members(base);
            lemma_wf_members(overlay);
            lemma_merge_entries_get(be, oe);
            let me = merge_entries(be, oe);
            lemma_merge_entries_get(me, oe);
            assert forall|m: Seq<char>| #[trigger] entries_get(merge_entries(me, oe), m) == entries_get(me, m) by {
                if has_key(oe, m) {
                    let j = key_index(oe, m);
                    lemma_key_index_found(oe, m);
                    let ov = oe[j].1;
                    assert(ov.wf());
                    assert(decreases_to!(overlay => oe[j].1));
                    if has_key(be, m) {
                        let i = key_index(be, m);
                        lemma_key_index_found(be, m);
                        assert(be[i].1.wf());
                        law_merge_overlay_twice(be[i].1, ov);
                    } else {
                        law_merge_idempotent(ov);
                    }
                }
            }
            lemma_entries_ext(merge_entries(me, oe), me);
        },
        _ => {
            law_merge_idempotent(overlay);
        },
    }
}

/// Optional values merged in order onto `acc`, each as a member would be.
pub open spec fn merge_opt(acc: Option<Json>, s: Seq<Option<Json>>) -> Option<Json>
    decreases s.len(),
{
    if s.len() == 0 {
        acc
    } else {
        merge_member(merge_opt(acc, s.drop_last()), s.last())
    }
}

/// The member `k` of an optional value.
pub open spec fn opt_get(o: Option<Json>, k: Seq<char>) -> Option<Json> {
    match o {
        Some(x) => x.get(k),
        None => None,
    }
}

/// Absent, or a well-formed object.
pub open spec fn opt_object_wf(o: Option<Json>) -> bool {
    match o {
        Some(x) => x is Object && x.wf(),
        None => true,
    }
}

/// Merging optional objects in order merges them member by member.
pub proof fn lemma_merge_opt_members(acc: Option<Json>, s: Seq<Option<Json>>)
    requires
        opt_object_wf(acc),
        forall|i: int| 0 <= i < s.len() ==> opt_object_wf(#[trigger] s[i]),
    ensures
        opt_object_wf(merge_opt(acc, s)),
        forall|k: Seq<char>| #[trigger] opt_get(merge_opt(acc, s), k) == merge_opt(
            opt_get(acc, k),
            Seq::new(s.len(), |i: int| opt_get(s[i], k)),
        ),
    decreases s.len(),
{
    if s.len() > 0 {
        let d = s.drop_last();
        assert forall|i: int| 0 <= i < d.len() implies opt_object_wf(#[trigger] d[i]) by {
            assert(d[i] == s[i]);
        }
        lemma_merge_opt_members(acc, d);
        let prev = merge_opt(acc, d);
        let last = s.last();
        assert(opt_object_wf(last));
        if let (Some(bv), Some(ov)) = (prev, last) {
            lemma_merge_wf(bv, ov);
        }
        assert forall|k: Seq<char>| #[trigger] opt_get(merge_opt(acc, s), k) == merge_opt(
            opt_get(acc, k),
            Seq::new(s.len(), |i: int| opt_get(s[i], k)),
        ) by {
            let t = Seq::new(s.len(), |i: int| opt_get(s[i], k));
            let td = Seq::new(d.len(), |i: int| opt_get(d[i], k));
            assert(t.drop_last() =~= td);
            assert(t.last() == opt_get(last, k));
            assert(opt_get(prev, k) == merge_opt(opt_get(acc, k), td));
            if let (Some(bv), Some(ov)) = (prev, last) {
                law_merge_members(bv, ov, k);
            }
        }
    }
}

/// Merging optional values of which all but one are absent gives that one.
pub proof fn lemma_merge_opt_single(s: Seq<Option<Json>>, j: int)
    requires
        0 <= j < s.len(),
        forall|i: int| 0 <= i < s.len() && i != j ==> (#[trigger] s[i]) is None,
    ensures
        merge_opt(None, s) == s[j],
    decreases s.len(),
{
    let d = s.drop_last();
    if j == s.len() - 1 {
        lemma_merge_opt_none(d);
        assert(s.last() == s[j]);
    } else {
        assert forall|i: int| 0 <= i < d.len() && i != j implies (#[trigger] d[i]) is None by {
            assert(d[i] == s[i]);
        }
        lemma_merge_opt_single(d, j);
        assert(s.last() == s[s.len() - 1]);
        assert(d[j] == s[j]);
    }
}

proof fn lemma_merge_opt_none(s: Seq<Option<Json>>)
    requires
        forall|i: int| 0 <= i < s.len() ==> (#[trigger] s[i]) is None,
    ensures
        merge_opt(None, s) is None,
    decreases s.len(),
{
    if s.len() > 0 {
        let d = s.drop_last();
        assert forall|i: int| 0 <= i < d.len() implies (#[trigger] d[i]) is None by {
            assert(d[i] == s[i]);
        }
        lemma_merge_opt_none(d);
        assert(s.last() == s[s.len() - 1]);
    }
}

// ---------------------------------------------------------------------------
// Executable values
// ---------------------------------------------------------------------------

/// A JSON value.
#[derive(Debug, PartialEq)]
pub enum JsonValue {
    Null,
    Bool(bool),
    /// A number, held as its canonical decimal text.
    Number(String),
    String(String),
    Array(Vec<JsonValue>),
    Object(JsonMap),
}

/// The members of a JSON object, sorted by key.
#[derive(Debug, PartialEq)]
pub struct JsonMap {
    pub entries: Vec<(String, JsonValue)>,
}

impl JsonValue {
    pub open spec fn model(&self) -> Json
        decreases self,
    {
        match self {
            JsonValue::Null => Json::Null,
            JsonValue::Bool(b) => Json::Bool(*b),
            JsonValue::Number(t) => Json::Number(t@),
            JsonValue::String(t) => Json::Str(t@),
            JsonValue::Array(xs) => Json::Array(
                Seq::new(
                    xs@.len(),
                    |i: int|
                        if 0 <= i < xs@.len() {
                            xs@[i].model()
                        } else {
                            Json::Null
                        },
                ),
            ),
            JsonValue::Object(m) => Json::Object(
                Seq::new(
                    m.entries@.len(),
                    |i: int|
                        if 0 <= i < m.entries@.len() {
                            (m.entries@[i].0@, m.entries@[i].1.model())
                        } else {
                            (Seq::empty(), Json::Null)
                        },
                ),
            ),
        }
    }
}

impl View for JsonValue {
    type V = Json;

    open spec fn view(&self) -> Json {
        self.model()
    }
}

impl JsonMap {
    pub open spec fn model(&self) -> Entries {
        Seq::new(self.entries@.len(), |i: int| (self.entries@[i].0@, self.entries@[i].1@))
    }
}

impl View for JsonMap {
    type V = Entries;

    open spec fn view(&self) -> Entries {
        self.model()
    }
}

/// The model of an object is the model of its members.
pub proof fn lemma_object_view(m: &JsonMap)
    ensures
        JsonValue::Object(*m)@ == Json::Object(m@),
{
    assert(JsonValue::Object(*m)@->Object_0 =~= m@);
}

pub proof fn lemma_array_view(xs: &Vec<JsonValue>)
    ensures
        JsonValue::Array(*xs)@ == Json::Array(xs@.map_values(|x: JsonValue| x@)),
{
    assert(JsonValue::Array(*xs)@->Array_0 =~= xs@.map_values(|x: JsonValue| x@));
}

impl JsonMap {
    /// The empty object.
    pub fn new() -> (m: JsonMap)
        ensures
            m@ == Seq::<(Seq<char>, Json)>::empty(),
    {
        let m = JsonMap { entries: Vec::new() };
        proof {
            assert(m@ =~= Seq::<(Seq<char>, Json)>::empty());
        }
        m
    }

    pub fn len(&self) -> (n: usize)
        ensures
            n == self@.len(),
    {
        self.entries.len()
    }

    /// Position of the member with key `k`.
    pub fn find(&self, k: &str) -> (res: Option<usize>)
        requires
            keys_sorted(self@),
        ensures
            res is Some <==> has_key(self@, k@),
            res matches Some(i) ==> i < self@.len() && i == key_index(self@, k@) && self@[i as int].0
                == k@,
    {
        let mut i: usize = 0;
        while i < self.entries.len()
            invariant
                i <= self.entries.len(),
                keys_sorted(self@),
                forall|j: int| 0 <= j < i ==> self@[j].0 != k@,
            decreases self.entries.len() - i,
        {
            if str_eq(self.entries[i].0.as_str(), k) {
                proof {
                    lemma_key_index(self@, k@, i as int);
                }
                return Some(i);
            }
            i = i + 1;
        }
        None
    }

    /// The value of member `k`.
    pub fn get(&self, k: &str) -> (res: Option<&JsonValue>)
        requires
            keys_sorted(self@),
        ensures
            res matches Some(v) ==> entries_get(self@, k@) == Some(v@),
            res is None ==> entries_get(self@, k@) is None,
    {
        match self.find(k) {
            Some(i) => Some(&self.entries[i].1),
            None => None,
        }
    }

    /// Member `k` is present.
    pub fn contains_key(&self, k: &str) -> (res: bool)
        requires
            keys_sorted(self@),
        ensures
            res == has_key(self@, k@),
    {
        self.find(k).is_some()
    }

    /// Sets member `k` to `v`, keeping keys sorted; returns whether a member of
    /// that key was replaced.
    pub fn insert(&mut self, k: String, v: JsonValue) -> (replaced: bool)
        requires
            keys_sorted(old(self)@),
        ensures
            final(self)@ == entries_put(old(self)@, k@, v@),
            keys_sorted(final(self)@),
            replaced == has_key(old(self)@, k@),
    {
        proof {
            lemma_put_sorted(self@, k@, v@);
        }
        match self.find(k.as_str()) {
            Some(i) => {
                let ghost kv = k@;
                let ghost vv = v@;
                self.entries.set(i, (k, v));
                proof {
                    assert(self@ =~= old(self)@.update(i as int, (kv, vv)));
                }
                true
            },
            None => {
                let mut p: usize = 0;
                while p < self.entries.len() && string_lt(&self.entries[p].0, &k)
                    invariant
                        p <= self.entries.len(),
                        self@ == old(self)@,
                        forall|j: int| 0 <= j < p ==> seq_lt(#[trigger] self@[j].0, k@),
                    decreases self.entries.len() - p,
                {
                    p = p + 1;
                }
                proof {
                    lemma_insert_pos(self@, k@, p as int);
                }
                let ghost kv = k@;
                let ghost vv = v@;
                self.entries.insert(p, (k, v));
                proof {
                    assert(self@ =~= old(self)@.insert(p as int, (kv, vv)));
                }
                false
            },
        }
    }

    /// Removes member `k`; returns its value when it was present.
    pub fn remove(&mut self, k: &str) -> (res: Option<JsonValue>)
        requires
            keys_sorted(old(self)@),
        ensures
            final(self)@ == entries_remove(old(self)@, k@),
            keys_sorted(final(self)@),
            res matches Some(v) ==> entries_get(old(self)@, k@) == Some(v@),
            res is None ==> !has_key(old(self)@, k@),
    {
        proof {
            lemma_remove_sorted(self@, k@);
        }
        match self.find(k) {
            Some(i) => {
                let (_key, v) = self.entries.remove(i);
                proof {
                    assert(self@ =~= old(self)@.remove(i as int));
                }
                Some(v)
            },
            None => None,
        }
    }

    /// The keys, in order.
    pub fn keys(&self) -> (res: Vec<String>)
        ensures
            res@.len() == self@.len(),
            forall|i: int| 0 <= i < res@.len() ==> #[trigger] res@[i]@ == self@[i].0,
    {
        let mut out: Vec<String> = Vec::new();
        let mut i: usize = 0;
        while i < self.entries.len()
            invariant
                i <= self.entries.len(),
                out@.len() == i,
                forall|j: int| 0 <= j < i ==> #[trigger] out@[j]@ == self@[j].0,
            decreases self.entries.len() - i,
        {
            out.push(self.entries[i].0.clone());
            i = i + 1;
        }
        out
    }

    /// A copy of the members.
    pub fn deep_clone(&self) -> (res: JsonMap)
        ensures
            res@ == self@,
    {
        let mut out: Vec<(String, JsonValue)> = Vec::new();
        let mut i: usize = 0;
        while i < self.entries.len()
            invariant
                i <= self.entries.len(),
                out@.len() == i,
                forall|j: int|
                    0 <= j < i ==> #[trigger] out@[j].0@ == self.entries@[j].0@ && out@[j].1@
                        == self.entries@[j].1@,
            decreases self.entries.len() - i,
        {
            let k = self.entries[i].0.clone();
            let v = self.entries[i].1.deep_clone();
            out.push((k, v));
            i = i + 1;
        }
        let res = JsonMap { entries: out };
        proof {
            assert(res@ =~= self@);
        }
        res
    }
}

impl JsonValue {
    /// A copy of the value.
    #[verifier::loop_isolation(false)]
    pub fn deep_clone(&self) -> (res: JsonValue)
        ensures
            res@ == self@,
        decreases self,
    {
        match self {
            JsonValue::Null => JsonValue::Null,
            JsonValue::Bool(b) => JsonValue::Bool(*b),
            JsonValue::Number(t) => JsonValue::Number(t.clone()),
            JsonValue::String(t) => JsonValue::String(t.clone()),
            JsonValue::Array(xs) => {
                let mut out: Vec<JsonValue> = Vec::new();
                let mut i: usize = 0;
                while i < xs.len()
                    invariant
                        i <= xs.len(),
                        out@.len() == i,
                        forall|j: int| 0 <= j < i ==> #[trigger] out@[j]@ == xs@[j]@,
                    decreases xs.len() - i,
                {
                    proof {
                        assert(decreases_to!(self => xs@[i as int]));
                    }
                    let v = xs[i].deep_clone();
                    out.push(v);
                    i = i + 1;
                }
                let res = JsonValue::Array(out);
                proof {
                    assert forall|j: int| 0 <= j < xs@.len() implies res@->Array_0[j] == self@->Array_0[j] by {
                        assert(out@[j]@ == xs@[j]@);
                    }
                    assert(res@->Array_0 =~= self@->Array_0);
                }
                res
            },
            JsonValue::Object(m) => {
                let mut out: Vec<(String, JsonValue)> = Vec::new();
                let mut i: usize = 0;
                while i < m.entries.len()
                    invariant
                        i <= m.entries.len(),
                        out@.len() == i,
                        forall|j: int|
                            0 <= j < i ==> #[trigger] out@[j].0@ == m.entries@[j].0@ && out@[j].1@
                                == m.entries@[j].1@,
                    decreases m.entries.len() - i,
                {
                    let k = m.entries[i].0.clone();
                    proof {
                        assert(decreases_to!(self => m.entries@[i as int].1));
                    }
                    let v = m.entries[i].1.deep_clone();
                    out.push((k, v));
                    i = i + 1;
                }
                let res = JsonValue::Object(JsonMap { entries: out });
                proof {
                    assert(res@->Object_0 =~= self@->Object_0);
                }
                res
            },
        }
    }
}

/// `a` and `b` are the same JSON value.
#[verifier::loop_isolation(false)]
pub fn json_eq(a: &JsonValue, b: &JsonValue) -> (res: bool)
    ensures
        res == (a@ == b@),
    decreases a,
{
    match (a, b) {
        (JsonValue::Null, JsonValue::Null) => true,
        (JsonValue::Bool(x), JsonValue::Bool(y)) => *x == *y,
        (JsonValue::Number(x), JsonValue::Number(y)) => str_eq(x.as_str(), y.as_str()),
        (JsonValue::String(x), JsonValue::String(y)) => str_eq(x.as_str(), y.as_str()),
        (JsonValue::Array(xs), JsonValue::Array(ys)) => {
            if xs.len() != ys.len() {
                proof {
                    assert(a@->Array_0.len() != b@->Array_0.len());
                }
                return false;
            }
            let mut i: usize = 0;
            while i < xs.len()
                invariant
                    i <= xs.len(),
                    xs.len() == ys.len(),
                    forall|j: int| 0 <= j < i ==> #[trigger] xs@[j]@ == ys@[j]@,
                decreases xs.len() - i,
            {
                proof {
                    assert(decreases_to!(a => xs@[i as int]));
                }
                if !json_eq(&xs[i], &ys[i]) {
                    proof {
                        assert(a@->Array_0[i as int] != b@->Array_0[i as int]);
                    }
                    return false;
                }
                i = i + 1;
            }
            proof {
                assert forall|j: int| 0 <= j < xs@.len() implies a@->Array_0[j] == b@->Array_0[j] by {
                    assert(xs@[j]@ == ys@[j]@);
                }
                assert(a@->Array_0 =~= b@->Array_0);
            }
            true
        },
        (JsonValue::Object(m), JsonValue::Object(n)) => {
            proof {
                lemma_object_view(m);
                lemma_object_view(n);
            }
            if m.entries.len() != n.entries.len() {
                proof {
                    assert(a@->Object_0.len() != b@->Object_0.len());
                }
                return false;
            }
            let mut i: usize = 0;
            while i < m.entries.len()
                invariant
                    i <= m.entries.len(),
                    m.entries.len() == n.entries.len(),
                    forall|j: int| 0 <= j < i ==> #[trigger] m@[j] == n@[j],
                decreases m.entries.len() - i,
            {
                if !str_eq(m.entries[i].0.as_str(), n.entries[i].0.as_str()) {
                    proof {
                        assert(a@->Object_0[i as int] != b@->Object_0[i as int]);
                    }
                    return false;
                }
                proof {
                    assert(decreases_to!(a => m.entries@[i as int].1));
                }
                if !json_eq(&m.entries[i].1, &n.entries[i].1) {
                    proof {
                        assert(a@->Object_0[i as int] != b@->Object_0[i as int]);
                    }
                    return false;
                }
                assert(m@[i as int] == n@[i as int]);
                i = i + 1;
            }
            proof {
                lemma_object_view(m);
                lemma_object_view(n);
                assert(m@ =~= n@);
            }
            true
        },
        _ => false,
    }
}

/// `m` and `n` have the same members.
pub fn map_eq(m: &JsonMap, n: &JsonMap) -> (res: bool)
    ensures
        res == (m@ == n@),
{
    if m.entries.len() != n.entries.len() {
        proof {
            assert(m@.len() != n@.len());
        }
        return false;
    }
    let mut i: usize = 0;
    while i < m.entries.len()
        invariant
            i <= m.entries.len(),
            m.entries.len() == n.entries.len(),
            forall|j: int| 0 <= j < i ==> #[trigger] m@[j] == n@[j],
        decreases m.entries.len() - i,
    {
        if !str_eq(m.entries[i].0.as_str(), n.entries[i].0.as_str()) || !json_eq(
            &m.entries[i].1,
            &n.entries[i].1,
        ) {
            proof {
                assert(m@[i as int] != n@[i as int]);
            }
            return false;
        }
        assert(m@[i as int] == n@[i as int]);
        i = i + 1;
    }
    proof {
        assert(m@ =~= n@);
    }
    true
}

/// `base` merged with `overlay`: objects are merged member by member,
/// recursively; any other overlay replaces the base.
#[verifier::loop_isolation(false)]
pub fn merged(base: &JsonValue, overlay: &JsonValue) -> (res: JsonValue)
    requires
        base@.wf(),
        overlay@.wf(),
    ensures
        res@ == merge(base@, overlay@),
        res@.wf(),
    decreases overlay,
{
    proof {
        lemma_merge_wf(base@, overlay@);
    }
    match (base, overlay) {
        (JsonValue::Object(bm), JsonValue::Object(om)) => {
            proof {
                lemma_object_view(bm);
                lemma_object_view(om);
                lemma_wf_members(base@);
                lemma_wf_members(overlay@);
            }
            let mut acc = bm.deep_clone();
            let mut i: usize = 0;
            proof {
                assert(om@.subrange(0, 0) =~= Seq::<(Seq<char>, Json)>::empty());
            }
            while i < om.entries.len()
                invariant
                    i <= om.entries.len(),
                    acc@ == merge_entries(bm@, om@.subrange(0, i as int)),
                decreases om.entries.len() - i,
            {
                let ghost prefix = om@.subrange(0, i as int);
                proof {
                    assert forall|j: int| 0 <= j < prefix.len() implies #[trigger] prefix[j].1.wf() by {
                        assert(prefix[j] == om@[j]);
                    }
                    lemma_merge_entries_wf(bm@, prefix);
                }
                let k = &om.entries[i].0;
                let ov = &om.entries[i].1;
                assert(om@[i as int] == (k@, ov@));
                assert(overlay@->Object_0[i as int].1.wf());
                assert(ov@.wf());
                let nv = match acc.get(k.as_str()) {
                    Some(bv) => {
                        proof {
                            let j = key_index(acc@, k@);
                            assert(acc@[j].1.wf());
                            assert(decreases_to!(overlay => om.entries@[i as int].1));
                        }
                        merged(bv, ov)
                    },
                    None => ov.deep_clone(),
                };
                acc.insert(k.clone(), nv);
                proof {
                    let next = om@.subrange(0, i + 1);
                    assert(next.drop_last() =~= prefix);
                    assert(next.last() == (k@, ov@));
                }
                i = i + 1;
            }
            proof {
                assert(om@.subrange(0, om@.len() as int) =~= om@);
            }
            let res = JsonValue::Object(acc);
            proof {
                lemma_object_view(&acc);
            }
            res
        },
        _ => overlay.deep_clone(),
    }
}

impl JsonValue {
    /// The empty object.
    pub fn empty_object() -> (res: JsonValue)
        ensures
            res@ == empty_object(),
            res@.wf(),
    {
        let m = JsonMap::new();
        proof {
            lemma_object_view(&m);
            lemma_wf_intro(JsonValue::Object(m)@);
        }
        JsonValue::Object(m)
    }

    /// The text of a string value.
    pub fn as_str(&self) -> (res: Option<&String>)
        ensures
            res matches Some(t) ==> self@ == Json::Str(t@),
            res is None ==> !(self@ is Str),
    {
        match self {
            JsonValue::String(t) => Some(t),
            _ => None,
        }
    }

    /// The members of an object value.
    pub fn as_object(&self) -> (res: Option<&JsonMap>)
        ensures
            res matches Some(m) ==> self@ == Json::Object(m@),
            res is None ==> !(self@ is Object),
    {
        match self {
            JsonValue::Object(m) => {
                proof {
                    lemma_object_view(m);
                }
                Some(m)
            },
            _ => None,
        }
    }

    pub fn is_object(&self) -> (res: bool)
        ensures
            res == (self@ is Object),
    {
        match self {
            JsonValue::Object(_) => true,
            _ => false,
        }
    }
}


// ---------------------------------------------------------------------------
// Compact JSON text
// ---------------------------------------------------------------------------

/// Lower-case hexadecimal digit of `d` (below 16).
pub open spec fn hex_digit(d: nat) -> char {
    if d < 10 {
        digit_char(d)
    } else if d == 10 {
        'a'
    } else if d == 11 {
        'b'
    } else if d == 12 {
        'c'
    } else if d == 13 {
        'd'
    } else if d == 14 {
        'e'
    } else {
        'f'
    }
}

/// How one character is written inside a JSON string: quote, backslash and
/// the control characters are escaped, everything else is written as is.
pub open spec fn escape_char(c: char) -> Seq<char> {
    let n = c as u32;
    if c == '"' {
        seq!['\\', '"']
    } else if c == '\\' {
        seq!['\\', '\\']
    } else if n == 0x0a {
        seq!['\\', 'n']
    } else if n == 0x0d {
        seq!['\\', 'r']
    } else if n == 0x09 {
        seq!['\\', 't']
    } else if n == 0x08 {
        seq!['\\', 'b']
    } else if n == 0x0c {
        seq!['\\', 'f']
    } else if n < 0x20 {
        seq!['\\', 'u', '0', '0', hex_digit((n / 16) as nat), hex_digit((n % 16) as nat)]
    } else {
        seq![c]
    }
}

/// The escaped characters of `s`.
pub open spec fn escape_text(s: Seq<char>) -> Seq<char>
    decreases s.len(),
{
    if s.len() == 0 {
        Seq::empty()
    } else {
        escape_text(s.drop_last()) + escape_char(s.last())
    }
}

/// `s` as a JSON string literal.
pub open spec fn quoted(s: Seq<char>) -> Seq<char> {
    seq!['"'] + escape_text(s) + seq!['"']
}

/// The compact JSON text of a value: no whitespace, members in order, `,`
/// between items and `:` after keys.
pub open spec fn json_text(v: Json) -> Seq<char>
    decreases v,
{
    match v {
        Json::Null => seq!['n', 'u', 'l', 'l'],
        Json::Bool(b) => if b {
            seq!['t', 'r', 'u', 'e']
        } else {
            seq!['f', 'a', 'l', 's', 'e']
        },
        Json::Number(t) => t,
        Json::Str(s) => quoted(s),
        Json::Array(a) => seq!['['] + elements_text(a) + seq![']'],
        Json::Object(e) => seq!['{'] + members_text(e) + seq!['}'],
    }
}

/// The texts of the elements, separated by commas.
pub open spec fn elements_text(a: Seq<Json>) -> Seq<char>
    decreases a,
{
    if a.len() == 0 {
        Seq::empty()
    } else {
        proof {
            assert(decreases_to!(a => a[a.len() - 1]));
        }
        if a.len() == 1 {
            json_text(a.last())
        } else {
            elements_text(a.drop_last()) + seq![','] + json_text(a.last())
        }
    }
}

/// The texts of the members, `"key":value`, separated by commas.
pub open spec fn members_text(e: Entries) -> Seq<char>
    decreases e,
{
    if e.len() == 0 {
        Seq::empty()
    } else {
        proof {
            assert(decreases_to!(e => e[e.len() - 1]));
        }
        let m = quoted(e.last().0) + seq![':'] + json_text(e.last().1);
        if e.len() == 1 {
            m
        } else {
            members_text(e.drop_last()) + seq![','] + m
        }
    }
}

fn hex_char(d: u32) -> (c: char)
    requires
        d < 16,
    ensures
        c == hex_digit(d as nat),
{
    if d == 0 { '0' }
    else if d == 1 { '1' }
    else if d == 2 { '2' }
    else if d == 3 { '3' }
    else if d == 4 { '4' }
    else if d == 5 { '5' }
    else if d == 6 { '6' }
    else if d == 7 { '7' }
    else if d == 8 { '8' }
    else if d == 9 { '9' }
    else if d == 10 { 'a' }
    else if d == 11 { 'b' }
    else if d == 12 { 'c' }
    else if d == 13 { 'd' }
    else if d == 14 { 'e' }
    else { 'f' }
}

fn push_escaped(out: &mut Vec<char>, c: char)
    ensures
        final(out)@ == old(out)@ + escape_char(c),
{
    let n = c as u32;
    if c == '"' {
        out.push('\\');
        out.push('"');
    } else if c == '\\' {
        out.push('\\');
        out.push('\\');
    } else if n == 0x0a {
        out.push('\\');
        out.push('n');
    } else if n == 0x0d {
        out.push('\\');
        out.push('r');
    } else if n == 0x09 {
        out.push('\\');
        out.push('t');
    } else if n == 0x08 {
        out.push('\\');
        out.push('b');
    } else if n == 0x0c {
        out.push('\\');
        out.push('f');
    } else if n < 0x20 {
        out.push('\\');
        out.push('u');
        out.push('0');
        out.push('0');
        out.push(hex_char(n / 16));
        out.push(hex_char(n % 16));
    } else {
        out.push(c);
    }
    proof {
        assert(final(out)@ =~= old(out)@ + escape_char(c));
    }
}

fn push_chars(out: &mut Vec<char>, s: &str)
    ensures
        final(out)@ == old(out)@ + s@,
{
    let mut cs = chars_of(s);
    out.append(&mut cs);
}

fn push_quoted(out: &mut Vec<char>, s: &str)
    ensures
        final(out)@ == old(out)@ + quoted(s@),
{
    let cs = chars_of(s);
    let ghost start = out@;
    out.push('"');
    let mut i: usize = 0;
    while i < cs.len()
        invariant
            i <= cs.len(),
            cs@ == s@,
            out@ == start + seq!['"'] + escape_text(cs@.subrange(0, i as int)),
        decreases cs.len() - i,
    {
        push_escaped(out, cs[i]);
        proof {
            let next = cs@.subrange(0, i + 1);
            assert(next.drop_last() =~= cs@.subrange(0, i as int));
            assert(next.last() == cs@[i as int]);
        }
        i = i + 1;
    }
    out.push('"');
    proof {
        assert(cs@.subrange(0, cs@.len() as int) =~= s@);
        assert(out@ =~= start + quoted(s@));
    }
}

#[verifier::loop_isolation(false)]
#[verifier::spinoff_prover]
#[verifier::rlimit(50)]
fn write_json(v: &JsonValue, out: &mut Vec<char>)
    ensures
        final(out)@ == old(out)@ + json_text(v@),
    decreases v,
{
    let ghost start = out@;
    match v {
        JsonValue::Null => {
            out.push('n');
            out.push('u');
            out.push('l');
            out.push('l');
        },
        JsonValue::Bool(b) => {
            if *b {
                out.push('t');
                out.push('r');
                out.push('u');
                out.push('e');
            } else {
                out.push('f');
                out.push('a');
                out.push('l');
                out.push('s');
                out.push('e');
            }
        },
        JsonValue::Number(t) => {
            push_chars(out, t.as_str());
        },
        JsonValue::String(t) => {
            push_quoted(out, t.as_str());
        },
        JsonValue::Array(xs) => {
            proof {
                lemma_array_view(xs);
            }
            let ghost items = xs@.map_values(|x: JsonValue| x@);
            out.push('[');
            let mut i: usize = 0;
            while i < xs.len()
                invariant
                    i <= xs.len(),
                    items == xs@.map_values(|x: JsonValue| x@),
                    out@ == start + seq!['['] + elements_text(items.subrange(0, i as int)),
                decreases xs.len() - i,
            {
                if i > 0 {
                    out.push(',');
                }
                proof {
                    assert(decreases_to!(v => xs@[i as int]));
                }
                write_json(&xs[i], out);
                proof {
                    let next = items.subrange(0, i + 1);
                    assert(next.drop_last() =~= items.subrange(0, i as int));
                    assert(next.last() == xs@[i as int]@);
                }
                i = i + 1;
            }
            out.push(']');
            proof {
                assert(items.subrange(0, items.len() as int) =~= items);
            }
        },
        JsonValue::Object(m) => {
            proof {
                lemma_object_view(m);
            }
            out.push('{');
            let mut i: usize = 0;
            while i < m.entries.len()
                invariant
                    i <= m.entries.len(),
                    out@ == start + seq!['{'] + members_text(m@.subrange(0, i as int)),
                decreases m.entries.len() - i,
            {
                if i > 0 {
                    out.push(',');
                }
                push_quoted(out, m.entries[i].0.as_str());
                out.push(':');
                proof {
                    assert(decreases_to!(v => m.entries@[i as int].1));
                }
                write_json(&m.entries[i].1, out);
                proof {
                    let next = m@.subrange(0, i + 1);
                    assert(next.drop_last() =~= m@.subrange(0, i as int));
                    assert(next.last() == (m.entries@[i as int].0@, m.entries@[i as int].1@));
                }
                i = i + 1;
            }
            out.push('}');
            proof {
                assert(m@.subrange(0, m@.len() as int) =~= m@);
            }
        },
    }
    proof {
        assert(final(out)@ =~= old(out)@ + json_text(v@));
    }
}

/// The compact JSON text of `v` (what `serde_json`'s `to_string` writes).
pub fn json_text_of(v: &JsonValue) -> (res: String)
    ensures
        res@ == json_text(v@),
{
    let mut out: Vec<char> = Vec::new();
    write_json(v, &mut out);
    proof {
        assert(out@ =~= json_text(v@));
    }
    string_from_chars(out.as_slice())
}

} // verus!
