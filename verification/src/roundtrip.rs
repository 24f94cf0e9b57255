//! Decomposing a template and composing its fragments back: composing the
//! fragments of a split in any order (in particular file-name order) gives
//! the template back whenever they do not conflict, and they never conflict
//! when every key is non-empty and free of dots, since each leaf path is
//! then set by one fragment only.

use vstd::prelude::*;
use crate::json::{Json, Entries, merge, merge_entries, lemma_merge_entries_get, lemma_wf_members};
use crate::keyed::{
    entries_get, entries_put, has_key, has_entry, key_index, keys_sorted, lemma_entries_ext, lemma_key_index,
    lemma_put_sorted, lemma_sorted_unique,
};
use crate::compose::{
    child_path, leaves, member_leaves, all_leaves, tagged, prov_fold, conflicts_of, is_conflict, fragment_conflicts,
    compose_spec, wrap_spec, values_of, Resolution, law_conflict_free_composes_by_merge,
};
use crate::decompose::{
    split_spec, agent_fragment, with_agents, lemma_split_values, law_split_roundtrip_any_order,
};
use crate::json::empty_object;
use crate::template::merge_all;

verus! {

/// An object key that paths can hold unambiguously: not empty, no dot.
pub open spec fn clean_key(k: Seq<char>) -> bool {
    k.len() > 0 && !k.contains('.')
}

/// Every object key, at any depth, is clean.
pub open spec fn clean_value(v: Json) -> bool
    decreases v, 1int,
{
    match v {
        Json::Object(e) => clean_members(e),
        _ => true,
    }
}

pub open spec fn clean_members(e: Entries) -> bool
    decreases e, 0int,
{
    if e.len() == 0 {
        true
    } else {
        proof {
            assert(decreases_to!(e => e[e.len() - 1]));
        }
        clean_members(e.drop_last()) && clean_key(e.last().0) && clean_value(e.last().1)
    }
}

pub proof fn lemma_clean_members(e: Entries)
    ensures
        clean_members(e) <==> forall|i: int| 0 <= i < e.len() ==> clean_key((#[trigger] e[i]).0) && clean_value(e[i].1),
    decreases e.len(),
{
    if e.len() > 0 {
        let d = e.drop_last();
        lemma_clean_members(d);
        if clean_members(e) {
            assert forall|i: int| 0 <= i < e.len() implies clean_key((#[trigger] e[i]).0) && clean_value(e[i].1) by {
                if i < e.len() - 1 {
                    assert(d[i] == e[i]);
                }
            }
        }
        if forall|i: int| 0 <= i < e.len() ==> clean_key((#[trigger] e[i]).0) && clean_value(e[i].1) {
            assert forall|i: int| 0 <= i < d.len() implies clean_key((#[trigger] d[i]).0) && clean_value(d[i].1) by {
                assert(d[i] == e[i]);
            }
            assert(clean_key(e[e.len() - 1].0) && clean_value(e[e.len() - 1].1));
        }
    }
}

// ---------------------------------------------------------------------------
// Paths
// ---------------------------------------------------------------------------

/// `p` is the path `c` or a path below it.
pub open spec fn under(p: Seq<char>, c: Seq<char>) -> bool {
    p == c || crate::strings::seq_starts_with(p, c + "."@)
}

/// What `under` says character by character.
proof fn lemma_under_chars(p: Seq<char>, c: Seq<char>)
    requires
        under(p, c),
    ensures
        p.len() >= c.len(),
        forall|t: int| 0 <= t < c.len() ==> p[t] == c[t],
        p.len() == c.len() || p[c.len() as int] == '.',
{
    if p != c {
        reveal_strlit(".");
        let d = c + "."@;
        assert(d[c.len() as int] == '.');
        assert(p.subrange(0, d.len() as int) == d);
        assert forall|t: int| 0 <= t < c.len() implies p[t] == c[t] by {
            assert(p.subrange(0, d.len() as int)[t] == d[t]);
        }
        assert(p.subrange(0, d.len() as int)[c.len() as int] == d[c.len() as int]);
    }
}

/// The prefix of child paths of `prefix`.
pub open spec fn child_base(prefix: Seq<char>) -> Seq<char> {
    if prefix.len() == 0 {
        Seq::empty()
    } else {
        prefix + "."@
    }
}

proof fn lemma_child_path(prefix: Seq<char>, k: Seq<char>)
    ensures
        child_path(prefix, k) == child_base(prefix) + k,
{
    if prefix.len() == 0 {
        assert(Seq::<char>::empty() + k =~= k);
    }
}

/// A path is below the child path of at most one clean key.
proof fn lemma_one_key(p: Seq<char>, prefix: Seq<char>, k1: Seq<char>, k2: Seq<char>)
    requires
        clean_key(k1),
        clean_key(k2),
        under(p, child_path(prefix, k1)),
        under(p, child_path(prefix, k2)),
    ensures
        k1 == k2,
{
    let b = child_base(prefix);
    let l: int = b.len() as int;
    lemma_child_path(prefix, k1);
    lemma_child_path(prefix, k2);
    let c1 = b + k1;
    let c2 = b + k2;
    lemma_under_chars(p, c1);
    lemma_under_chars(p, c2);
    assert forall|t: int| 0 <= t < k1.len() implies p[l + t] == k1[t] by {
        assert(c1[l + t] == k1[t]);
    }
    assert forall|t: int| 0 <= t < k2.len() implies p[l + t] == k2[t] by {
        assert(c2[l + t] == k2[t]);
    }
    if k1.len() < k2.len() {
        assert(p[l + k1.len()] == k2[k1.len() as int]);
        assert(c1.len() == l + k1.len());
        assert(p[c1.len() as int] == '.');
        assert(k2.contains(k2[k1.len() as int]));
    } else if k2.len() < k1.len() {
        assert(p[l + k2.len()] == k1[k2.len() as int]);
        assert(c2.len() == l + k2.len());
        assert(p[c2.len() as int] == '.');
        assert(k1.contains(k1[k2.len() as int]));
    } else {
        assert forall|t: int| 0 <= t < k1.len() implies k1[t] == k2[t] by {
            assert(p[l + t] == k1[t]);
            assert(p[l + t] == k2[t]);
        }
        assert(k1 =~= k2);
    }
}

/// A path below a child path is below the parent, for a parent that is
/// not the root.
proof fn lemma_under_parent(p: Seq<char>, c: Seq<char>, k: Seq<char>)
    requires
        c.len() > 0,
        under(p, child_path(c, k)),
    ensures
        crate::strings::seq_starts_with(p, c + "."@),
{
    let d = c + "."@;
    let ck = child_path(c, k);
    assert(ck == c + "."@ + k);
    lemma_under_chars(p, ck);
    assert(p.subrange(0, d.len() as int) =~= d) by {
        assert forall|t: int| 0 <= t < d.len() implies p.subrange(0, d.len() as int)[t] == d[t] by {
            assert(p[t] == ck[t]);
            assert(ck[t] == d[t]);
        }
    }
}

// ---------------------------------------------------------------------------
// Leaves
// ---------------------------------------------------------------------------

/// No two leaves share a path.
pub open spec fn paths_distinct(ls: Seq<(Seq<char>, Json)>) -> bool {
    forall|i: int, j: int| 0 <= i < j < ls.len() ==> (#[trigger] ls[i]).0 != (#[trigger] ls[j]).0
}

/// The leaves of a clean, well-formed value below a path have distinct
/// paths, all below that path.
proof fn lemma_leaves(prefix: Seq<char>, v: Json)
    requires
        prefix.len() > 0,
        clean_value(v),
        v.wf(),
    ensures
        paths_distinct(leaves(prefix, v)),
        forall|i: int| 0 <= i < leaves(prefix, v).len() ==> under((#[trigger] leaves(prefix, v)[i]).0, prefix),
    decreases v, 1int,
{
    match v {
        Json::Object(e) => {
            lemma_wf_members(v);
            lemma_clean_members(e);
            lemma_members(prefix, e);
            let ml = member_leaves(prefix, e);
            assert forall|i: int| 0 <= i < ml.len() implies under((#[trigger] ml[i]).0, prefix) by {
                let j = choose|j: int| 0 <= j < e.len() && under(ml[i].0, child_path(prefix, #[trigger] e[j].0));
                lemma_under_parent(ml[i].0, prefix, e[j].0);
            }
        },
        _ => {},
    }
}

/// The leaves of the members of an object have distinct paths, each below
/// the child path of a member that has leaves.
proof fn lemma_members(prefix: Seq<char>, e: Entries)
    requires
        keys_sorted(e),
        forall|i: int| 0 <= i < e.len() ==> (#[trigger] e[i]).1.wf(),
        forall|i: int| 0 <= i < e.len() ==> clean_key((#[trigger] e[i]).0) && clean_value(e[i].1),
    ensures
        paths_distinct(member_leaves(prefix, e)),
        forall|i: int|
            0 <= i < member_leaves(prefix, e).len() ==> exists|j: int|
                0 <= j < e.len() && under((#[trigger] member_leaves(prefix, e)[i]).0, child_path(prefix, #[trigger] e[j].0))
                    && leaves(child_path(prefix, e[j].0), e[j].1).len() > 0,
    decreases e, 0int,
{
    if e.len() > 0 {
        let d = e.drop_last();
        assert(decreases_to!(e => e[e.len() - 1]));
        assert(keys_sorted(d));
        assert forall|i: int| 0 <= i < d.len() implies (#[trigger] d[i]).1.wf() by {
            assert(d[i] == e[i]);
        }
        assert forall|i: int| 0 <= i < d.len() implies clean_key((#[trigger] d[i]).0) && clean_value(d[i].1) by {
            assert(d[i] == e[i]);
        }
        lemma_members(prefix, d);
        let last = e.last();
        let n = e.len() - 1;
        assert(last == e[n]);
        let c = child_path(prefix, last.0);
        lemma_child_path(prefix, last.0);
        assert(c.len() > 0);
        lemma_leaves(c, last.1);
        let a = member_leaves(prefix, d);
        let b = leaves(c, last.1);
        let ml = member_leaves(prefix, e);
        assert(ml == a + b);
        assert forall|i: int| 0 <= i < ml.len() implies exists|j: int|
            0 <= j < e.len() && under((#[trigger] ml[i]).0, child_path(prefix, #[trigger] e[j].0))
                && leaves(child_path(prefix, e[j].0), e[j].1).len() > 0 by {
            if i < a.len() {
                assert(ml[i] == a[i]);
                let j = choose|j: int| 0 <= j < d.len() && under(a[i].0, child_path(prefix, #[trigger] d[j].0))
                    && leaves(child_path(prefix, d[j].0), d[j].1).len() > 0;
                assert(d[j] == e[j]);
            } else {
                assert(ml[i] == b[i - a.len()]);
                assert(e[n].0 == last.0);
            }
        }
        assert forall|i: int, j: int| 0 <= i < j < ml.len() implies (#[trigger] ml[i]).0 != (#[trigger] ml[j]).0 by {
            if j < a.len() {
                assert(ml[i] == a[i] && ml[j] == a[j]);
            } else if i >= a.len() {
                assert(ml[i] == b[i - a.len()] && ml[j] == b[j - a.len()]);
            } else {
                assert(ml[i] == a[i] && ml[j] == b[j - a.len()]);
                if ml[i].0 == ml[j].0 {
                    let k = choose|k: int| 0 <= k < d.len() && under(a[i].0, child_path(prefix, #[trigger] d[k].0))
                        && leaves(child_path(prefix, d[k].0), d[k].1).len() > 0;
                    assert(d[k] == e[k]);
                    lemma_one_key(ml[i].0, prefix, e[k].0, last.0);
                    lemma_sorted_unique(e, k, n);
                }
            }
        }
    }
}

// ---------------------------------------------------------------------------
// The fragments of a split
// ---------------------------------------------------------------------------

/// Where a leaf path can come from: the global fragment (`o == 0`) sets
/// paths below top-level keys other than `agent`; the fragment of agent
/// `o - 1` sets paths below `agent.<name>`.
pub open spec fn from_fragment(p: Seq<char>, agents: Entries, o: int) -> bool {
    if o == 0 {
        exists|k: Seq<char>| clean_key(k) && k != "agent"@ && #[trigger] under(p, child_path(Seq::empty(), k))
    } else {
        under(p, child_path("agent"@, agents[o - 1].0))
    }
}

proof fn lemma_agent_key()
    ensures
        clean_key("agent"@),
        "agent"@.len() == 5,
{
    reveal_strlit("agent");
    assert(!"agent"@.contains('.')) by {
        if "agent"@.contains('.') {
            let i = choose|i: int| 0 <= i < "agent"@.len() && "agent"@[i] == '.';
        }
    }
}

/// A path comes from one fragment at most.
proof fn lemma_one_fragment(p: Seq<char>, agents: Entries, o1: int, o2: int)
    requires
        keys_sorted(agents),
        forall|i: int| 0 <= i < agents.len() ==> clean_key((#[trigger] agents[i]).0),
        0 <= o1 <= agents.len(),
        0 <= o2 <= agents.len(),
        from_fragment(p, agents, o1),
        from_fragment(p, agents, o2),
    ensures
        o1 == o2,
{
    lemma_agent_key();
    if o1 == 0 && o2 > 0 {
        let k = choose|k: Seq<char>| clean_key(k) && k != "agent"@ && #[trigger] under(p, child_path(Seq::empty(), k));
        lemma_under_parent(p, "agent"@, agents[o2 - 1].0);
        assert(child_path(Seq::empty(), "agent"@) == "agent"@);
        lemma_one_key(p, Seq::empty(), k, "agent"@);
    } else if o2 == 0 && o1 > 0 {
        let k = choose|k: Seq<char>| clean_key(k) && k != "agent"@ && #[trigger] under(p, child_path(Seq::empty(), k));
        lemma_under_parent(p, "agent"@, agents[o1 - 1].0);
        assert(child_path(Seq::empty(), "agent"@) == "agent"@);
        lemma_one_key(p, Seq::empty(), k, "agent"@);
    } else if o1 > 0 && o2 > 0 {
        lemma_one_key(p, "agent"@, agents[o1 - 1].0, agents[o2 - 1].0);
        lemma_sorted_unique(agents, o1 - 1, o2 - 1);
    }
}

/// The leaves of the global fragment: distinct, none below `agent`.
proof fn lemma_global_leaves(obj: Entries, agents: Entries)
    requires
        keys_sorted(obj),
        forall|i: int| 0 <= i < obj.len() ==> (#[trigger] obj[i]).1.wf(),
        forall|i: int| 0 <= i < obj.len() ==> clean_key((#[trigger] obj[i]).0) && clean_value(obj[i].1),
    ensures
        ({
            let ls = leaves(Seq::empty(), with_agents(obj, Seq::empty()));
            &&& paths_distinct(ls)
            &&& forall|i: int| 0 <= i < ls.len() ==> from_fragment((#[trigger] ls[i]).0, agents, 0)
        }),
{
    lemma_agent_key();
    let empty: Entries = Seq::empty();
    let ge = entries_put(obj, "agent"@, Json::Object(empty));
    lemma_put_sorted(obj, "agent"@, Json::Object(empty));
    assert(Json::Object(empty).wf());
    assert(clean_value(Json::Object(empty)));
    assert forall|i: int| 0 <= i < ge.len() implies (#[trigger] ge[i]).1.wf() && clean_key(ge[i].0) && clean_value(ge[i].1) by {
        if ge[i] != ("agent"@, Json::Object(empty)) {
            assert(has_entry(obj, ge[i]));
            let j = choose|j: int| 0 <= j < obj.len() && obj[j] == ge[i];
            assert(obj[j].1.wf());
        }
    }
    lemma_members(Seq::empty(), ge);
    let ls = member_leaves(Seq::empty(), ge);
    assert(leaves(Seq::empty(), with_agents(obj, Seq::empty())) == ls);
    assert forall|i: int| 0 <= i < ls.len() implies from_fragment((#[trigger] ls[i]).0, agents, 0) by {
        let j = choose|j: int| 0 <= j < ge.len() && under(ls[i].0, child_path(Seq::empty(), #[trigger] ge[j].0))
            && leaves(child_path(Seq::empty(), ge[j].0), ge[j].1).len() > 0;
        if ge[j].0 == "agent"@ {
            lemma_key_index(ge, "agent"@, j);
            assert(ge[j].1 == Json::Object(empty));
            assert(member_leaves(child_path(Seq::empty(), ge[j].0), empty).len() == 0);
        }
        assert(clean_key(ge[j].0) && ge[j].0 != "agent"@ && under(ls[i].0, child_path(Seq::empty(), ge[j].0)));
    }
}

/// The leaves of the fragment of agent `j`: distinct, all below
/// `agent.<name>`.
proof fn lemma_agent_leaves(agents: Entries, j: int)
    requires
        0 <= j < agents.len(),
        agents[j].1.wf(),
        clean_key(agents[j].0),
        clean_value(agents[j].1),
    ensures
        ({
            let ls = leaves(Seq::empty(), agent_fragment(agents[j].0, agents[j].1));
            &&& paths_distinct(ls)
            &&& forall|i: int| 0 <= i < ls.len() ==> from_fragment((#[trigger] ls[i]).0, agents, j + 1)
        }),
{
    lemma_agent_key();
    let (n, v) = agents[j];
    let inner: Entries = seq![(n, v)];
    let outer: Entries = seq![("agent"@, Json::Object(inner))];
    let c = child_path("agent"@, n);
    assert(c == "agent"@ + "."@ + n);
    assert(c.len() > 0);
    lemma_leaves(c, v);
    assert(outer.drop_last() =~= Seq::<(Seq<char>, Json)>::empty());
    assert(inner.drop_last() =~= Seq::<(Seq<char>, Json)>::empty());
    assert(child_path(Seq::empty(), "agent"@) == "agent"@);
    assert(inner.last() == (n, v));
    assert(outer.last() == ("agent"@, Json::Object(inner)));
    assert(member_leaves("agent"@, inner.drop_last()) == Seq::<(Seq<char>, Json)>::empty());
    assert(member_leaves(Seq::empty(), outer.drop_last()) == Seq::<(Seq<char>, Json)>::empty());
    assert(member_leaves("agent"@, inner) == Seq::<(Seq<char>, Json)>::empty() + leaves(c, v));
    assert(member_leaves("agent"@, inner) =~= leaves(c, v));
    assert(member_leaves(Seq::empty(), outer) == Seq::<(Seq<char>, Json)>::empty() + leaves("agent"@, Json::Object(inner)));
    assert(leaves(Seq::empty(), agent_fragment(n, v)) =~= leaves(c, v));
}

/// The leaves of each fragment of a split: distinct, and from that
/// fragment.
proof fn lemma_fragment_leaves(template: Seq<char>, original: Json, o: int)
    requires
        original.wf(),
        clean_value(original),
        split_spec(template, original) is Ok,
        0 <= o < split_spec(template, original)->Ok_0.len(),
    ensures
        ({
            let f = split_spec(template, original)->Ok_0;
            let agents = entries_get(original->Object_0, "agent"@)->Some_0->Object_0;
            let ls = leaves(Seq::empty(), f[o].1);
            &&& keys_sorted(agents)
            &&& forall|i: int| 0 <= i < agents.len() ==> clean_key((#[trigger] agents[i]).0)
            &&& paths_distinct(ls)
            &&& forall|i: int| 0 <= i < ls.len() ==> from_fragment((#[trigger] ls[i]).0, agents, o)
        }),
{
    lemma_split_values(template, original);
    let obj = original->Object_0;
    let agents = entries_get(obj, "agent"@)->Some_0->Object_0;
    lemma_wf_members(original);
    lemma_clean_members(obj);
    let ai = key_index(obj, "agent"@);
    crate::keyed::lemma_key_index_found(obj, "agent"@);
    assert(obj[ai].1 == Json::Object(agents));
    assert(Json::Object(agents).wf());
    assert(clean_value(Json::Object(agents)));
    lemma_wf_members(Json::Object(agents));
    lemma_clean_members(agents);
    let f = split_spec(template, original)->Ok_0;
    if o == 0 {
        assert(f[0].1 == with_agents(obj, Seq::empty()));
        lemma_global_leaves(obj, agents);
    } else {
        let j = o - 1;
        assert(f[j + 1].1 == agent_fragment(agents[j].0, agents[j].1));
        assert(agents[j].1.wf());
        assert(clean_key(agents[j].0) && clean_value(agents[j].1));
        lemma_agent_leaves(agents, j);
    }
}

/// No two leaves of a list share a path.
pub open spec fn leaf_paths_distinct(ls: Seq<(Seq<char>, Seq<char>, Json)>) -> bool {
    forall|i: int, j: int| 0 <= i < j < ls.len() ==> (#[trigger] ls[i]).0 != (#[trigger] ls[j]).0
}

/// The leaves of the first `m` fragments in the order `order` have
/// distinct paths, each from one of those fragments.
proof fn lemma_ordered_leaves(
    template: Seq<char>,
    original: Json,
    order: Seq<int>,
    gs: Seq<(Seq<char>, Json)>,
    m: int,
)
    requires
        original.wf(),
        clean_value(original),
        split_spec(template, original) is Ok,
        order.len() == split_spec(template, original)->Ok_0.len(),
        forall|i: int| 0 <= i < order.len() ==> 0 <= #[trigger] order[i] < order.len(),
        forall|i: int, j: int| 0 <= i < j < order.len() ==> #[trigger] order[i] != #[trigger] order[j],
        gs == Seq::new(order.len(), |i: int| split_spec(template, original)->Ok_0[order[i]]),
        0 <= m <= order.len(),
    ensures
        ({
            let agents = entries_get(original->Object_0, "agent"@)->Some_0->Object_0;
            let ls = all_leaves(gs.subrange(0, m));
            &&& leaf_paths_distinct(ls)
            &&& forall|i: int| 0 <= i < ls.len() ==> exists|a: int| 0 <= a < m && from_fragment((#[trigger] ls[i]).0, agents, #[trigger] order[a])
        }),
    decreases m,
{
    let f = split_spec(template, original)->Ok_0;
    let agents = entries_get(original->Object_0, "agent"@)->Some_0->Object_0;
    lemma_split_values(template, original);
    if m == 0 {
        assert(gs.subrange(0, 0) =~= Seq::<(Seq<char>, Json)>::empty());
    } else {
        lemma_ordered_leaves(template, original, order, gs, m - 1);
        let s = gs.subrange(0, m);
        assert(s.drop_last() =~= gs.subrange(0, m - 1));
        assert(s.last() == gs[m - 1]);
        let o = order[m - 1];
        assert(gs[m - 1] == f[o]);
        lemma_fragment_leaves(template, original, o);
        let a = all_leaves(gs.subrange(0, m - 1));
        let l = leaves(Seq::empty(), f[o].1);
        let b = tagged(l, f[o].0);
        let ls = all_leaves(s);
        assert(ls == a + b);
        assert forall|i: int| 0 <= i < b.len() implies (#[trigger] b[i]).0 == l[i].0 by {}
        assert forall|i: int| 0 <= i < ls.len() implies exists|x: int| 0 <= x < m && from_fragment((#[trigger] ls[i]).0, agents, #[trigger] order[x]) by {
            if i < a.len() {
                assert(ls[i] == a[i]);
                let x = choose|x: int| 0 <= x < m - 1 && from_fragment(a[i].0, agents, #[trigger] order[x]);
            } else {
                assert(ls[i] == b[i - a.len()]);
                assert(from_fragment(l[i - a.len()].0, agents, o));
            }
        }
        assert forall|i: int, j: int| 0 <= i < j < ls.len() implies (#[trigger] ls[i]).0 != (#[trigger] ls[j]).0 by {
            if j < a.len() {
                assert(ls[i] == a[i] && ls[j] == a[j]);
            } else if i >= a.len() {
                assert(ls[i] == b[i - a.len()] && ls[j] == b[j - a.len()]);
                assert(l[i - a.len()].0 != l[j - a.len()].0);
            } else {
                assert(ls[i] == a[i] && ls[j] == b[j - a.len()]);
                if ls[i].0 == ls[j].0 {
                    let x = choose|x: int| 0 <= x < m - 1 && from_fragment(a[i].0, agents, #[trigger] order[x]);
                    assert(from_fragment(l[j - a.len()].0, agents, o));
                    lemma_one_fragment(ls[i].0, agents, order[x], o);
                    assert(order[x] != order[m - 1]);
                }
            }
        }
    }
}

/// With distinct leaf paths every path has one candidate.
proof fn lemma_single_candidates(ls: Seq<(Seq<char>, Seq<char>, Json)>)
    requires
        leaf_paths_distinct(ls),
    ensures
        keys_sorted(prov_fold(ls)),
        forall|j: int| 0 <= j < prov_fold(ls).len() ==> (#[trigger] prov_fold(ls)[j]).1.len() == 1
            && exists|i: int| 0 <= i < ls.len() && ls[i].0 == prov_fold(ls)[j].0,
    decreases ls.len(),
{
    if ls.len() > 0 {
        let d = ls.drop_last();
        assert forall|i: int, j: int| 0 <= i < j < d.len() implies (#[trigger] d[i]).0 != (#[trigger] d[j]).0 by {
            assert(d[i] == ls[i] && d[j] == ls[j]);
        }
        lemma_single_candidates(d);
        let m = prov_fold(d);
        let (p, src, v) = ls.last();
        assert(!has_key(m, p)) by {
            if has_key(m, p) {
                let j = choose|j: int| 0 <= j < m.len() && #[trigger] m[j].0 == p;
                let i = choose|i: int| 0 <= i < d.len() && d[i].0 == m[j].0;
                assert(d[i] == ls[i]);
                assert(ls[i].0 != ls[ls.len() - 1].0);
            }
        }
        let r = prov_fold(ls);
        assert(r == entries_put(m, p, seq![(src, v)]));
        lemma_put_sorted(m, p, seq![(src, v)]);
        assert forall|j: int| 0 <= j < r.len() implies (#[trigger] r[j]).1.len() == 1
            && exists|i: int| 0 <= i < ls.len() && ls[i].0 == r[j].0 by {
            if r[j] == (p, seq![(src, v)]) {
                assert(ls[ls.len() - 1].0 == r[j].0);
            } else {
                assert(has_entry(m, r[j]));
                let k = choose|k: int| 0 <= k < m.len() && m[k] == r[j];
                let i = choose|i: int| 0 <= i < d.len() && d[i].0 == m[k].0;
                assert(d[i] == ls[i]);
            }
        }
    }
}

/// A provenance map whose paths have one candidate each has no conflict.
proof fn lemma_no_conflicts(p: Seq<(Seq<char>, Seq<(Seq<char>, Json)>)>)
    requires
        forall|j: int| 0 <= j < p.len() ==> (#[trigger] p[j]).1.len() == 1,
    ensures
        conflicts_of(p).len() == 0,
    decreases p.len(),
{
    if p.len() > 0 {
        let d = p.drop_last();
        assert forall|j: int| 0 <= j < d.len() implies (#[trigger] d[j]).1.len() == 1 by {
            assert(d[j] == p[j]);
        }
        lemma_no_conflicts(d);
        assert(p.last() == p[p.len() - 1]);
        assert(!is_conflict(p.last().1));
    }
}

/// Merging the first of several values into the empty object, then the
/// rest, is merging the rest into the first.
proof fn lemma_merge_all_front(first: Json, s: Seq<Json>)
    requires
        s.len() > 0,
    ensures
        merge_all(first, s) == merge_all(merge(first, s[0]), s.subrange(1, s.len() as int)),
    decreases s.len(),
{
    if s.len() == 1 {
        assert(s.drop_last() =~= Seq::<Json>::empty());
        assert(s.last() == s[0]);
        assert(merge_all(first, s.drop_last()) == first);
        assert(merge_all(first, s) == merge(first, s[0]));
        let r = s.subrange(1, 1);
        assert(r =~= Seq::<Json>::empty());
        assert(merge_all(merge(first, s[0]), r) == merge(first, s[0]));
    } else {
        let d = s.drop_last();
        lemma_merge_all_front(first, d);
        let h = merge(first, s[0]);
        let r = s.subrange(1, s.len() as int);
        let rd = d.subrange(1, d.len() as int);
        assert(r.drop_last() =~= rd);
        assert(r.last() == s.last());
        assert(d[0] == s[0]);
        assert(r.len() > 0);
        assert(merge_all(h, r) == merge(merge_all(h, r.drop_last()), r.last()));
        assert(merge_all(first, s) == merge(merge_all(first, d), s.last()));
        assert(merge_all(first, d) == merge_all(h, rd));
    }
}

/// Merging an object with sorted keys into the empty object gives it.
proof fn lemma_merge_into_empty(e: Entries)
    requires
        keys_sorted(e),
    ensures
        merge(empty_object(), Json::Object(e)) == Json::Object(e),
{
    let z: Entries = Seq::empty();
    lemma_merge_entries_get(z, e);
    assert forall|m: Seq<char>| #[trigger] entries_get(merge_entries(z, e), m) == entries_get(e, m) by {
        assert(!has_key(z, m));
    }
    lemma_entries_ext(merge_entries(z, e), e);
}

/// No fragment of a split is wrapped when composed: each has an `agent`
/// member.
proof fn lemma_wrapped_unchanged(template: Seq<char>, original: Json, order: Seq<int>)
    requires
        original.wf(),
        split_spec(template, original) is Ok,
        order.len() == split_spec(template, original)->Ok_0.len(),
        forall|i: int| 0 <= i < order.len() ==> 0 <= #[trigger] order[i] < order.len(),
    ensures
        ({
            let f = split_spec(template, original)->Ok_0;
            Seq::new(order.len(), |i: int| (f[order[i]].0, wrap_spec(f[order[i]].0, f[order[i]].1)))
                == Seq::new(order.len(), |i: int| f[order[i]])
        }),
{
    let f = split_spec(template, original)->Ok_0;
    let obj = original->Object_0;
    let agents = entries_get(obj, "agent"@)->Some_0->Object_0;
    lemma_split_values(template, original);
    let n = order.len() as int;
    let gs = Seq::new(order.len(), |i: int| f[order[i]]);
    let wrapped = Seq::new(order.len(), |i: int| (f[order[i]].0, wrap_spec(f[order[i]].0, f[order[i]].1)));
    // every fragment is an object with an `agent` member, so none is wrapped
    lemma_agent_key();
    let empty: Entries = Seq::empty();
    lemma_put_sorted(obj, "agent"@, Json::Object(empty));
    assert forall|o: int| 0 <= o < f.len() implies #[trigger] wrap_spec(f[o].0, f[o].1) == f[o].1 by {
        if o == 0 {
            assert(entries_get(entries_put(obj, "agent"@, Json::Object(empty)), "agent"@) is Some);
            assert(has_key(f[o].1->Object_0, "agent"@));
        } else {
            let j = o - 1;
            let e: Entries = seq![("agent"@, Json::Object(seq![(agents[j].0, agents[j].1)]))];
            assert(f[j + 1].1 == agent_fragment(agents[j].0, agents[j].1));
            assert(f[o].1 == Json::Object(e));
            assert(e[0].0 == "agent"@);
            assert(has_key(e, "agent"@));
        }
    }
    assert forall|i: int| 0 <= i < n implies #[trigger] wrapped[i] == gs[i] by {
        assert(wrap_spec(f[order[i]].0, f[order[i]].1) == f[order[i]].1);
    }
    assert(wrapped =~= gs);
}

/// Composing the fragments of a split, in any order (in particular the
/// file-name order in which `compose` reads a fragment directory) and with
/// any conflict strategy, gives the template back whenever the fragments
/// do not conflict.
pub proof fn law_compose_after_decompose_without_conflicts(
    template: Seq<char>,
    original: Json,
    order: Seq<int>,
    res: Resolution,
)
    requires
        original.wf(),
        split_spec(template, original) is Ok,
        order.len() == split_spec(template, original)->Ok_0.len(),
        forall|i: int| 0 <= i < order.len() ==> 0 <= #[trigger] order[i] < order.len(),
        forall|i: int, j: int| 0 <= i < j < order.len() ==> #[trigger] order[i] != #[trigger] order[j],
        forall|x: int| 0 <= x < order.len() ==> #[trigger] order.contains(x),
        ({
            let f = split_spec(template, original)->Ok_0;
            let wrapped = Seq::new(order.len(), |i: int| (f[order[i]].0, wrap_spec(f[order[i]].0, f[order[i]].1)));
            fragment_conflicts(wrapped).len() == 0
        }),
    ensures
        ({
            let f = split_spec(template, original)->Ok_0;
            let wrapped = Seq::new(order.len(), |i: int| (f[order[i]].0, wrap_spec(f[order[i]].0, f[order[i]].1)));
            compose_spec(wrapped, res) == Ok::<Json, (Seq<char>, Seq<Seq<char>>)>(original)
        }),
{
    let f = split_spec(template, original)->Ok_0;
    let obj = original->Object_0;
    let agents = entries_get(obj, "agent"@)->Some_0->Object_0;
    lemma_split_values(template, original);
    let n = order.len() as int;
    let gs = Seq::new(order.len(), |i: int| f[order[i]]);
    let wrapped = Seq::new(order.len(), |i: int| (f[order[i]].0, wrap_spec(f[order[i]].0, f[order[i]].1)));
    lemma_wrapped_unchanged(template, original, order);
    let empty: Entries = Seq::empty();
    assert(wrapped =~= gs);
    law_conflict_free_composes_by_merge(wrapped, res);
    // the merge in order from the empty object is the merge into the first
    let g = Seq::new(order.len(), |i: int| f[order[i]].1);
    assert(values_of(wrapped) =~= g);
    lemma_merge_all_front(empty_object(), g);
    let first = f[order[0]].1;
    assert(g[0] == first);
    if order[0] == 0 {
        assert(f[0].1 == with_agents(obj, Seq::empty()));
        assert(first == Json::Object(entries_put(obj, "agent"@, Json::Object(empty))));
        lemma_merge_into_empty(entries_put(obj, "agent"@, Json::Object(empty)));
    } else {
        let j = order[0] - 1;
        let e: Entries = seq![("agent"@, Json::Object(seq![(agents[j].0, agents[j].1)]))];
        assert(f[j + 1].1 == agent_fragment(agents[j].0, agents[j].1));
        assert(first == Json::Object(e));
        assert(keys_sorted(e));
        lemma_merge_into_empty(e);
    }
    law_split_roundtrip_any_order(template, original, order);
}

/// Composing the fragments of a split, in any order (in particular the
/// file-name order in which `compose` reads a fragment directory) and with
/// any conflict strategy, gives the template back: the fragments never
/// conflict, since each leaf path is set by one fragment only. This holds
/// of templates whose keys are all non-empty and free of dots (a key with
/// a dot, or an empty key, can make two leaf paths coincide).
pub proof fn law_compose_after_decompose(template: Seq<char>, original: Json, order: Seq<int>, res: Resolution)
    requires
        original.wf(),
        clean_value(original),
        split_spec(template, original) is Ok,
        order.len() == split_spec(template, original)->Ok_0.len(),
        forall|i: int| 0 <= i < order.len() ==> 0 <= #[trigger] order[i] < order.len(),
        forall|i: int, j: int| 0 <= i < j < order.len() ==> #[trigger] order[i] != #[trigger] order[j],
        forall|x: int| 0 <= x < order.len() ==> #[trigger] order.contains(x),
    ensures
        ({
            let f = split_spec(template, original)->Ok_0;
            let wrapped = Seq::new(order.len(), |i: int| (f[order[i]].0, wrap_spec(f[order[i]].0, f[order[i]].1)));
            compose_spec(wrapped, res) == Ok::<Json, (Seq<char>, Seq<Seq<char>>)>(original)
        }),
{
    let f = split_spec(template, original)->Ok_0;
    let n = order.len() as int;
    lemma_split_values(template, original);
    let gs = Seq::new(order.len(), |i: int| f[order[i]]);
    let wrapped = Seq::new(order.len(), |i: int| (f[order[i]].0, wrap_spec(f[order[i]].0, f[order[i]].1)));
    lemma_wrapped_unchanged(template, original, order);
    assert(wrapped =~= gs);
    lemma_ordered_leaves(template, original, order, gs, n);
    assert(gs.subrange(0, n) =~= gs);
    lemma_single_candidates(all_leaves(gs));
    lemma_no_conflicts(prov_fold(all_leaves(gs)));
    assert(fragment_conflicts(wrapped).len() == 0);
    law_compose_after_decompose_without_conflicts(template, original, order, res);
}

} // verus!
