//! Decomposition of a single-file template into a fragment directory: the
//! global fragment `_<template>.json` holds every member with an empty
//! `agent` object, and each agent gets `<agent>.json` holding
//! `{"agent": {<agent>: ...}}`. Also the backup names used before files are
//! replaced.

use vstd::prelude::*;
use crate::config::ConfigError;
use crate::json::{
    Json, Entries, JsonMap, JsonValue, json_eq, lemma_object_view, lemma_wf_members, merge,
    merge_entries, lemma_merge_entries_get,
};
use crate::keyed::{
    entries_get, entries_put, has_key, keys_sorted, lemma_put_sorted, lemma_drop_last_get,
    lemma_entries_ext,
};
use crate::template::merge_all;
use crate::compose::values_of;
use crate::strings::{contains_str, seq_contains_sub,
    concat, concat3, decimal, to_owned_string, u64_to_padded, zero_pad, chars_of,
};
use crate::template::{
    TemplateError, TemplateProbe, is_valid_template_name, fragment_dir, fragment_dir_path,
    template_file, template_file_path, valid_template_name,
};

verus! {

/// Why a decomposition failed.
#[derive(Debug)]
pub enum DecomposeError {
    Config(ConfigError),
    Template(TemplateError),
    NotASingleFile { name: String },
    TargetExists { path: String },
    NoAgentKey,
    RoundtripMismatch,
    TempDir { source: std::io::Error },
    WriteFragment { path: String, source: std::io::Error },
    Backup { path: String, source: std::io::Error },
    Rename { path: String, source: std::io::Error },
    RemoveOriginal { path: String, source: std::io::Error },
    Serialize { source: serde_json::Error },
    InvalidAgentName(String),
    InvalidTemplateName(String),
}

/// Settings of a decomposition.
pub struct DecomposeOptions {
    /// Template name, resolved in the configuration directory.
    pub template: String,
    /// The configuration directory.
    pub config_dir: String,
    /// Only describe what would be done.
    pub dry_run: bool,
    /// Check that the fragments merge back into the template.
    pub verify: bool,
    /// Replace an existing fragment directory.
    pub force: bool,
}

/// A fragment: its file name and content.
pub struct Fragment {
    pub filename: String,
    pub value: JsonValue,
}

/// The model of a decomposition failure.
pub enum SplitFailure {
    NoAgentKey,
    InvalidAgentName(Seq<char>),
}

/// ASCII letter or digit.
pub open spec fn ascii_alnum(c: char) -> bool {
    ('a' <= c && c <= 'z') || ('A' <= c && c <= 'Z') || ('0' <= c && c <= '9')
}

/// A safe fragment file name for an agent: characters from
/// `[A-Za-z0-9._-]`, not empty, not starting with a dot, no `..`.
pub open spec fn agent_file_name_ok(n: Seq<char>) -> bool {
    &&& n.len() > 0
    &&& n[0] != '.'
    &&& !seq_contains_sub(n, ".."@)
    &&& forall|i: int| 0 <= i < n.len() ==> ascii_alnum(#[trigger] n[i]) || n[i] == '.' || n[i] == '_' || n[i] == '-'
}

/// Checks that an agent name is safe as a fragment file name.
pub fn validate_agent_name(name: &str) -> (r: Result<(), DecomposeError>)
    ensures
        r is Ok <==> agent_file_name_ok(name@),
        r matches Err(DecomposeError::InvalidAgentName(n)) ==> n@ == name@,
        r is Err ==> r matches Err(DecomposeError::InvalidAgentName(_)),
{
    let cs = chars_of(name);
    if cs.len() == 0 || cs[0] == '.' || contains_str(name, "..") {
        return Err(DecomposeError::InvalidAgentName(to_owned_string(name)));
    }
    let mut i: usize = 0;
    while i < cs.len()
        invariant
            i <= cs.len(),
            cs@ == name@,
            forall|k: int| 0 <= k < i ==> ascii_alnum(#[trigger] cs@[k]) || cs@[k] == '.' || cs@[k] == '_' || cs@[k] == '-',
        decreases cs.len() - i,
    {
        let c = cs[i];
        let ok = ('a' <= c && c <= 'z') || ('A' <= c && c <= 'Z') || ('0' <= c && c <= '9') || c
            == '.' || c == '_' || c == '-';
        if !ok {
            return Err(DecomposeError::InvalidAgentName(to_owned_string(name)));
        }
        i = i + 1;
    }
    Ok(())
}

/// The global fragment's file name.
pub open spec fn global_fragment_name(template: Seq<char>) -> Seq<char> {
    "_"@ + template + ".json"@
}

/// The fragment of one agent: `{"agent": {<name>: v}}`.
pub open spec fn agent_fragment(name: Seq<char>, v: Json) -> Json {
    Json::Object(seq![("agent"@, Json::Object(seq![(name, v)]))])
}

/// The fragments of the agents, in agent order; the first unsafe name stops.
pub open spec fn agent_fragments_spec(agents: Entries) -> Result<Seq<(Seq<char>, Json)>, SplitFailure>
    decreases agents.len(),
{
    if agents.len() == 0 {
        Ok(Seq::empty())
    } else {
        match agent_fragments_spec(agents.drop_last()) {
            Err(e) => Err(e),
            Ok(f) => {
                let n = agents.last().0;
                if agent_file_name_ok(n) {
                    Ok(f.push((n + ".json"@, agent_fragment(n, agents.last().1))))
                } else {
                    Err(SplitFailure::InvalidAgentName(n))
                }
            },
        }
    }
}

/// The split of a template: the global fragment first, then one fragment
/// per agent in name order.
pub open spec fn split_spec(template: Seq<char>, original: Json) -> Result<Seq<(Seq<char>, Json)>, SplitFailure> {
    match original {
        Json::Object(obj) => match entries_get(obj, "agent"@) {
            Some(Json::Object(agents)) => {
                let global = (
                    global_fragment_name(template),
                    Json::Object(entries_put(obj, "agent"@, Json::Object(Seq::empty()))),
                );
                match agent_fragments_spec(agents) {
                    Ok(f) => Ok(seq![global] + f),
                    Err(e) => Err(e),
                }
            },
            _ => Err(SplitFailure::NoAgentKey),
        },
        _ => Err(SplitFailure::NoAgentKey),
    }
}

/// The model of a list of fragments.
pub open spec fn fragments_view(v: Seq<Fragment>) -> Seq<(Seq<char>, Json)> {
    Seq::new(v.len(), |i: int| (v[i].filename@, v[i].value@))
}

/// The model of a split's outcome.
pub open spec fn split_outcome(r: Result<Vec<Fragment>, DecomposeError>) -> Result<Seq<(Seq<char>, Json)>, SplitFailure> {
    match r {
        Ok(v) => Ok(fragments_view(v@)),
        Err(DecomposeError::InvalidAgentName(n)) => Err(SplitFailure::InvalidAgentName(n@)),
        Err(_) => Err(SplitFailure::NoAgentKey),
    }
}

fn agent_fragment_value(name: &String, v: &JsonValue) -> (r: JsonValue)
    ensures
        r@ == agent_fragment(name@, v@),
{
    let mut inner = JsonMap::new();
    inner.insert(name.clone(), v.deep_clone());
    proof {
        lemma_put_sorted(Seq::<(Seq<char>, Json)>::empty(), name@, v@);
        assert(inner@ =~= seq![(name@, v@)]);
    }
    let inner_v = JsonValue::Object(inner);
    proof {
        lemma_object_view(&inner);
        lemma_put_sorted(Seq::<(Seq<char>, Json)>::empty(), "agent"@, Json::Object(inner@));
    }
    let mut outer = JsonMap::new();
    outer.insert(to_owned_string("agent"), inner_v);
    proof {
        assert(outer@ =~= seq![("agent"@, Json::Object(inner@))]);
    }
    let r = JsonValue::Object(outer);
    proof {
        lemma_object_view(&outer);
    }
    r
}

/// The agent fragments of a split: one per agent, in agent order.
proof fn lemma_agent_fragments(agents: Entries)
    requires
        agent_fragments_spec(agents) is Ok,
    ensures
        agent_fragments_spec(agents)->Ok_0.len() == agents.len(),
        forall|i: int|
            0 <= i < agents.len() ==> #[trigger] agent_fragments_spec(agents)->Ok_0[i].1 == agent_fragment(
                agents[i].0,
                agents[i].1,
            ),
    decreases agents.len(),
{
    if agents.len() > 0 {
        let d = agents.drop_last();
        lemma_agent_fragments(d);
        assert forall|i: int| 0 <= i < agents.len() implies #[trigger] agent_fragments_spec(agents)->Ok_0[i].1
            == agent_fragment(agents[i].0, agents[i].1) by {
            if i < agents.len() - 1 {
                assert(agents[i] == d[i]);
            }
        }
    }
}

/// The template with the agents of `agents` under `agent`.
pub open spec fn with_agents(obj: Entries, agents: Entries) -> Json {
    Json::Object(entries_put(obj, "agent"@, Json::Object(agents)))
}

/// Merging the fragment of one more agent adds that agent.
proof fn lemma_merge_agent_step(obj: Entries, agents: Entries, k: int)
    requires
        keys_sorted(obj),
        keys_sorted(agents),
        0 <= k < agents.len(),
    ensures
        merge(with_agents(obj, agents.subrange(0, k)), agent_fragment(agents[k].0, agents[k].1))
            == with_agents(obj, agents.subrange(0, k + 1)),
{
    let pre = agents.subrange(0, k);
    let next = agents.subrange(0, k + 1);
    assert(keys_sorted(pre));
    assert(keys_sorted(next));
    let (n, v) = agents[k];
    let base = entries_put(obj, "agent"@, Json::Object(pre));
    let frag: Entries = seq![("agent"@, Json::Object(seq![(n, v)]))];
    lemma_put_sorted(obj, "agent"@, Json::Object(pre));
    lemma_put_sorted(obj, "agent"@, Json::Object(next));
    assert(keys_sorted(frag));
    lemma_merge_entries_get(base, frag);
    let inner: Entries = seq![(n, v)];
    assert(keys_sorted(inner));
    lemma_merge_entries_get(pre, inner);
    assert(next.drop_last() =~= pre);
    assert(next.last() == (n, v));
    lemma_drop_last_get(next);
    assert forall|m: Seq<char>| #[trigger] entries_get(merge_entries(pre, inner), m) == entries_get(next, m) by {
        if m == n {
            assert(entries_get(inner, m) == Some(v)) by {
                assert(inner[0].0 == m);
            }
            assert(!has_key(pre, n)) by {
                if has_key(pre, n) {
                    let j = choose|j: int| 0 <= j < pre.len() && #[trigger] pre[j].0 == n;
                    assert(agents[j].0 == n);
                    assert(crate::strings::seq_lt(agents[j].0, agents[k].0));
                    crate::strings::lemma_seq_lt_irreflexive(n);
                }
            }
        } else {
            assert(!has_key(inner, m));
        }
    }
    lemma_entries_ext(merge_entries(pre, inner), next);
    let merged = merge_entries(base, frag);
    let target = entries_put(obj, "agent"@, Json::Object(next));
    assert forall|m: Seq<char>| #[trigger] entries_get(merged, m) == entries_get(target, m) by {
        if m == "agent"@ {
            assert(entries_get(frag, m) == Some(Json::Object(inner))) by {
                assert(frag[0].0 == m);
            }
        } else {
            assert(!has_key(frag, m));
        }
    }
    lemma_entries_ext(merged, target);
}

/// Merging the agent fragments, in order, into the global fragment adds
/// the agents one by one.
proof fn lemma_merge_agents(obj: Entries, agents: Entries, frags: Seq<Json>, k: int)
    requires
        keys_sorted(obj),
        keys_sorted(agents),
        frags.len() == agents.len(),
        forall|i: int| 0 <= i < agents.len() ==> #[trigger] frags[i] == agent_fragment(agents[i].0, agents[i].1),
        0 <= k <= agents.len(),
    ensures
        merge_all(with_agents(obj, Seq::empty()), frags.subrange(0, k)) == with_agents(obj, agents.subrange(0, k)),
    decreases k,
{
    if k == 0 {
        assert(agents.subrange(0, 0) =~= Seq::<(Seq<char>, Json)>::empty());
    } else {
        lemma_merge_agents(obj, agents, frags, k - 1);
        let r = frags.subrange(0, k);
        assert(r.drop_last() =~= frags.subrange(0, k - 1));
        assert(r.last() == frags[k - 1]);
        lemma_merge_agent_step(obj, agents, k - 1);
    }
}

/// Merging the fragments of a split, in order, gives back the template:
/// the agents' fragments, merged into the global fragment, restore the
/// `agent` object member by member.
pub proof fn law_split_roundtrip(template: Seq<char>, original: Json)
    requires
        original.wf(),
        split_spec(template, original) is Ok,
    ensures
        ({
            let f = split_spec(template, original)->Ok_0;
            merge_all(f[0].1, values_of(f).subrange(1, f.len() as int)) == original
        }),
{
    let obj = original->Object_0;
    lemma_wf_members(original);
    let agents = entries_get(obj, "agent"@)->Some_0->Object_0;
    assert(Json::Object(agents).wf()) by {
        let j = crate::keyed::key_index(obj, "agent"@);
        assert(obj[j].1.wf());
    }
    lemma_wf_members(Json::Object(agents));
    let af = agent_fragments_spec(agents)->Ok_0;
    lemma_agent_fragments(agents);
    let f = split_spec(template, original)->Ok_0;
    assert(f == seq![(global_fragment_name(template), with_agents(obj, Seq::empty()))] + af);
    let rest = values_of(f).subrange(1, f.len() as int);
    assert(rest.len() == agents.len());
    assert forall|i: int| 0 <= i < agents.len() implies #[trigger] rest[i] == agent_fragment(agents[i].0, agents[i].1) by {
        assert(rest[i] == f[i + 1].1);
        assert(f[i + 1] == af[i]);
    }
    lemma_merge_agents(obj, agents, rest, agents.len() as int);
    assert(rest.subrange(0, agents.len() as int) =~= rest);
    assert(agents.subrange(0, agents.len() as int) =~= agents);
    lemma_put_sorted(obj, "agent"@, Json::Object(agents));
    assert forall|m: Seq<char>| #[trigger] entries_get(entries_put(obj, "agent"@, Json::Object(agents)), m)
        == entries_get(obj, m) by {}
    lemma_entries_ext(entries_put(obj, "agent"@, Json::Object(agents)), obj);
}

/// `x` is among the first `k` positions of `order`.
spec fn placed(order: Seq<int>, k: int, x: int) -> bool {
    exists|i: int| 0 <= i < k && #[trigger] order[i] == x
}

/// The agent `m` has its fragment among the first `k` of `order`.
spec fn agent_placed(agents: Entries, order: Seq<int>, k: int, m: Seq<char>) -> bool {
    exists|j: int| 0 <= j < agents.len() && placed(order, k, j + 1) && #[trigger] agents[j].0 == m
}

/// What the fragments merged so far hold: the members of the template once
/// its global fragment was merged, and under `agent` the agents merged so far.
spec fn merged_so_far(obj: Entries, agents: Entries, order: Seq<int>, k: int, acc: Json) -> bool {
    &&& acc is Object
    &&& keys_sorted(acc->Object_0)
    &&& forall|m: Seq<char>|
        m != "agent"@ ==> #[trigger] entries_get(acc->Object_0, m) == if placed(order, k, 0) {
            entries_get(obj, m)
        } else {
            None
        }
    &&& entries_get(acc->Object_0, "agent"@) matches Some(Json::Object(a)) && keys_sorted(a) && forall|
        m: Seq<char>,
    |
        #[trigger] entries_get(a, m) == if agent_placed(agents, order, k, m) {
            entries_get(agents, m)
        } else {
            None
        }
}

/// The fragment values of a split, by position: the global fragment, then
/// one per agent.
pub proof fn lemma_split_values(template: Seq<char>, original: Json)
    requires
        original.wf(),
        split_spec(template, original) is Ok,
    ensures
        ({
            let obj = original->Object_0;
            let agents = entries_get(obj, "agent"@)->Some_0->Object_0;
            let f = split_spec(template, original)->Ok_0;
            &&& original is Object
            &&& keys_sorted(obj)
            &&& entries_get(obj, "agent"@) == Some(Json::Object(agents))
            &&& keys_sorted(agents)
            &&& f.len() == agents.len() + 1
            &&& f[0].1 == with_agents(obj, Seq::empty())
            &&& forall|j: int| 0 <= j < agents.len() ==> #[trigger] f[j + 1].1 == agent_fragment(agents[j].0, agents[j].1)
        }),
{
    let obj = original->Object_0;
    lemma_wf_members(original);
    let agents = entries_get(obj, "agent"@)->Some_0->Object_0;
    assert(Json::Object(agents).wf()) by {
        let j = crate::keyed::key_index(obj, "agent"@);
        assert(obj[j].1.wf());
    }
    lemma_wf_members(Json::Object(agents));
    let af = agent_fragments_spec(agents)->Ok_0;
    lemma_agent_fragments(agents);
    let f = split_spec(template, original)->Ok_0;
    assert(f == seq![(global_fragment_name(template), with_agents(obj, Seq::empty()))] + af);
    assert forall|j: int| 0 <= j < agents.len() implies #[trigger] f[j + 1].1 == agent_fragment(agents[j].0, agents[j].1) by {
        assert(f[j + 1] == af[j]);
    }
}

/// Merging the global fragment when it was not merged yet.
proof fn lemma_merge_global(obj: Entries, agents: Entries, order: Seq<int>, k: int, acc: Json)
    requires
        keys_sorted(obj),
        0 <= k < order.len(),
        order[k] == 0,
        !placed(order, k, 0),
        merged_so_far(obj, agents, order, k, acc),
    ensures
        merged_so_far(obj, agents, order, k + 1, merge(acc, with_agents(obj, Seq::empty()))),
{
    let ae = acc->Object_0;
    let ge = entries_put(obj, "agent"@, Json::Object(Seq::empty()));
    lemma_put_sorted(obj, "agent"@, Json::Object(Seq::<(Seq<char>, Json)>::empty()));
    lemma_merge_entries_get(ae, ge);
    let r = merge(acc, with_agents(obj, Seq::empty()));
    assert(r == Json::Object(merge_entries(ae, ge)));
    assert(placed(order, k + 1, 0)) by {
        assert(order[k] == 0);
    }
    assert forall|x: int| #[trigger] placed(order, k + 1, x) <==> placed(order, k, x) || x == 0 by {
        if placed(order, k + 1, x) {
            let i = choose|i: int| 0 <= i < k + 1 && #[trigger] order[i] == x;
            if i < k {
                assert(placed(order, k, x));
            }
        }
        if placed(order, k, x) {
            let i = choose|i: int| 0 <= i < k && #[trigger] order[i] == x;
            assert(0 <= i < k + 1);
        }
    }
    assert forall|m: Seq<char>| #[trigger] agent_placed(agents, order, k + 1, m) == agent_placed(agents, order, k, m) by {
        if agent_placed(agents, order, k + 1, m) {
            let j = choose|j: int| 0 <= j < agents.len() && placed(order, k + 1, j + 1) && #[trigger] agents[j].0 == m;
            assert(placed(order, k, j + 1));
        }
        if agent_placed(agents, order, k, m) {
            let j = choose|j: int| 0 <= j < agents.len() && placed(order, k, j + 1) && #[trigger] agents[j].0 == m;
            assert(placed(order, k + 1, j + 1));
        }
    }
    let a = entries_get(ae, "agent"@)->Some_0->Object_0;
    let empty: Entries = Seq::empty();
    assert(entries_get(ge, "agent"@) == Some(Json::Object(empty)));
    assert(merge(Json::Object(a), Json::Object(empty)) == Json::Object(a));
    assert(entries_get(merge_entries(ae, ge), "agent"@) == Some(Json::Object(a)));
}

/// Merging the fragment of agent `j` when it was not merged yet.
proof fn lemma_merge_agent(obj: Entries, agents: Entries, order: Seq<int>, k: int, j: int, acc: Json)
    requires
        keys_sorted(agents),
        0 <= j < agents.len(),
        0 <= k < order.len(),
        order[k] == j + 1,
        !placed(order, k, j + 1),
        merged_so_far(obj, agents, order, k, acc),
    ensures
        merged_so_far(obj, agents, order, k + 1, merge(acc, agent_fragment(agents[j].0, agents[j].1))),
{
    let (n, v) = agents[j];
    let ae = acc->Object_0;
    let ie: Entries = seq![(n, v)];
    let fe: Entries = seq![("agent"@, Json::Object(ie))];
    assert(keys_sorted(ie));
    assert(keys_sorted(fe));
    lemma_merge_entries_get(ae, fe);
    let r = merge(acc, agent_fragment(n, v));
    assert(r == Json::Object(merge_entries(ae, fe)));
    assert forall|x: int| #[trigger] placed(order, k + 1, x) <==> placed(order, k, x) || x == j + 1 by {
        if placed(order, k + 1, x) {
            let i = choose|i: int| 0 <= i < k + 1 && #[trigger] order[i] == x;
            if i < k {
                assert(placed(order, k, x));
            }
        }
        if placed(order, k, x) {
            let i = choose|i: int| 0 <= i < k && #[trigger] order[i] == x;
            assert(0 <= i < k + 1);
        }
    }
    crate::keyed::lemma_key_index(agents, n, j);
    assert(!agent_placed(agents, order, k, n)) by {
        if agent_placed(agents, order, k, n) {
            let j2 = choose|j2: int| 0 <= j2 < agents.len() && placed(order, k, j2 + 1) && #[trigger] agents[j2].0 == n;
            crate::keyed::lemma_sorted_unique(agents, j, j2);
        }
    }
    assert forall|m: Seq<char>| #[trigger] agent_placed(agents, order, k + 1, m) == (agent_placed(agents, order, k, m) || m == n) by {
        if agent_placed(agents, order, k + 1, m) {
            let j2 = choose|j2: int| 0 <= j2 < agents.len() && placed(order, k + 1, j2 + 1) && #[trigger] agents[j2].0 == m;
            if j2 != j {
                assert(placed(order, k, j2 + 1));
            }
        }
        if agent_placed(agents, order, k, m) {
            let j2 = choose|j2: int| 0 <= j2 < agents.len() && placed(order, k, j2 + 1) && #[trigger] agents[j2].0 == m;
            assert(placed(order, k + 1, j2 + 1));
        }
        if m == n {
            assert(placed(order, k + 1, j + 1));
            assert(agents[j].0 == m);
        }
    }
    assert forall|m: Seq<char>| m != "agent"@ implies #[trigger] entries_get(merge_entries(ae, fe), m)
        == entries_get(ae, m) by {
        assert(!has_key(fe, m));
    }
    assert(placed(order, k + 1, 0) == placed(order, k, 0));
    let a = entries_get(ae, "agent"@)->Some_0->Object_0;
    crate::keyed::lemma_key_index(fe, "agent"@, 0);
    assert(entries_get(merge_entries(ae, fe), "agent"@) == Some(Json::Object(merge_entries(a, ie))));
    lemma_merge_entries_get(a, ie);
    crate::keyed::lemma_key_index(ie, n, 0);
    assert forall|m: Seq<char>| #[trigger] entries_get(merge_entries(a, ie), m) == if agent_placed(
        agents,
        order,
        k + 1,
        m,
    ) {
        entries_get(agents, m)
    } else {
        None
    } by {
        if m != n {
            assert(!has_key(ie, m));
        }
    }
}

/// The first `k` fragments in the order `order` merged.
proof fn lemma_merge_in_order(
    template: Seq<char>,
    original: Json,
    order: Seq<int>,
    g: Seq<Json>,
    k: int,
)
    requires
        original.wf(),
        split_spec(template, original) is Ok,
        order.len() == split_spec(template, original)->Ok_0.len(),
        forall|i: int| 0 <= i < order.len() ==> 0 <= #[trigger] order[i] < order.len(),
        forall|i: int, j: int| 0 <= i < j < order.len() ==> #[trigger] order[i] != #[trigger] order[j],
        g == Seq::new(order.len(), |i: int| split_spec(template, original)->Ok_0[order[i]].1),
        1 <= k <= order.len(),
    ensures
        merged_so_far(
            original->Object_0,
            entries_get(original->Object_0, "agent"@)->Some_0->Object_0,
            order,
            k,
            merge_all(g[0], g.subrange(1, k)),
        ),
    decreases k,
{
    lemma_split_values(template, original);
    let obj = original->Object_0;
    let agents = entries_get(obj, "agent"@)->Some_0->Object_0;
    let f = split_spec(template, original)->Ok_0;
    if k == 1 {
        assert(g.subrange(1, 1) =~= Seq::<Json>::empty());
        let acc = g[0];
        assert forall|x: int| #[trigger] placed(order, 1, x) <==> x == order[0] by {
            if x == order[0] {
                assert(order[0] == x);
            }
        }
        if order[0] == 0 {
            let empty: Entries = Seq::empty();
            lemma_put_sorted(obj, "agent"@, Json::Object(empty));
            assert forall|m: Seq<char>| !#[trigger] agent_placed(agents, order, 1, m) by {
                if agent_placed(agents, order, 1, m) {
                    let j = choose|j: int| 0 <= j < agents.len() && placed(order, 1, j + 1) && #[trigger] agents[j].0 == m;
                }
            }
            assert(merged_so_far(obj, agents, order, 1, acc));
        } else {
            let j = order[0] - 1;
            let (n, v) = agents[j];
            let ie: Entries = seq![(n, v)];
            let fe: Entries = seq![("agent"@, Json::Object(ie))];
            assert(g[0] == f[j + 1].1);
            assert(acc == agent_fragment(n, v));
            crate::keyed::lemma_key_index(fe, "agent"@, 0);
            crate::keyed::lemma_key_index(ie, n, 0);
            crate::keyed::lemma_key_index(agents, n, j);
            assert forall|m: Seq<char>| m != "agent"@ implies #[trigger] entries_get(fe, m) == None::<Json> by {
                assert(!has_key(fe, m));
            }
            assert forall|m: Seq<char>| #[trigger] agent_placed(agents, order, 1, m) == (m == n) by {
                if agent_placed(agents, order, 1, m) {
                    let j2 = choose|j2: int| 0 <= j2 < agents.len() && placed(order, 1, j2 + 1) && #[trigger] agents[j2].0 == m;
                    assert(j2 + 1 == order[0]);
                }
                if m == n {
                    assert(placed(order, 1, j + 1));
                    assert(agents[j].0 == m);
                }
            }
            assert forall|m: Seq<char>| #[trigger] entries_get(ie, m) == if agent_placed(agents, order, 1, m) {
                entries_get(agents, m)
            } else {
                None
            } by {
                if m != n {
                    assert(!has_key(ie, m));
                }
            }
            assert(keys_sorted(fe));
            assert(keys_sorted(ie));
        }
    } else {
        lemma_merge_in_order(template, original, order, g, k - 1);
        let acc = merge_all(g[0], g.subrange(1, k - 1));
        let r = g.subrange(1, k);
        assert(r.drop_last() =~= g.subrange(1, k - 1));
        assert(r.last() == g[k - 1]);
        let x = order[k - 1];
        assert(!placed(order, k - 1, x)) by {
            if placed(order, k - 1, x) {
                let i = choose|i: int| 0 <= i < k - 1 && #[trigger] order[i] == x;
                assert(order[i] != order[k - 1]);
            }
        }
        if x == 0 {
            lemma_merge_global(obj, agents, order, k - 1, acc);
        } else {
            let j = x - 1;
            assert(g[k - 1] == f[j + 1].1);
            lemma_merge_agent(obj, agents, order, k - 1, j, acc);
        }
    }
}

/// Merging the fragments of a split in any order gives back the template:
/// in particular in the name order in which a template directory is loaded.
/// `order` lists the positions of the fragments, each once.
pub proof fn law_split_roundtrip_any_order(template: Seq<char>, original: Json, order: Seq<int>)
    requires
        original.wf(),
        split_spec(template, original) is Ok,
        order.len() == split_spec(template, original)->Ok_0.len(),
        forall|i: int| 0 <= i < order.len() ==> 0 <= #[trigger] order[i] < order.len(),
        forall|i: int, j: int| 0 <= i < j < order.len() ==> #[trigger] order[i] != #[trigger] order[j],
        forall|x: int| 0 <= x < order.len() ==> #[trigger] order.contains(x),
    ensures
        ({
            let f = split_spec(template, original)->Ok_0;
            let g = Seq::new(order.len(), |i: int| f[order[i]].1);
            merge_all(g[0], g.subrange(1, g.len() as int)) == original
        }),
{
    lemma_split_values(template, original);
    let obj = original->Object_0;
    let agents = entries_get(obj, "agent"@)->Some_0->Object_0;
    let f = split_spec(template, original)->Ok_0;
    let g = Seq::new(order.len(), |i: int| f[order[i]].1);
    let len = order.len() as int;
    lemma_merge_in_order(template, original, order, g, len);
    let acc = merge_all(g[0], g.subrange(1, len));
    let ae = acc->Object_0;
    assert(placed(order, len, 0)) by {
        assert(order.contains(0));
    }
    let a = entries_get(ae, "agent"@)->Some_0->Object_0;
    assert forall|m: Seq<char>| #[trigger] entries_get(a, m) == entries_get(agents, m) by {
        if has_key(agents, m) {
            let j = crate::keyed::key_index(agents, m);
            crate::keyed::lemma_key_index_found(agents, m);
            assert(order.contains(j + 1));
            assert(placed(order, len, j + 1));
            assert(agent_placed(agents, order, len, m));
        }
    }
    lemma_entries_ext(a, agents);
    assert forall|m: Seq<char>| #[trigger] entries_get(ae, m) == entries_get(obj, m) by {}
    lemma_entries_ext(ae, obj);
}

/// Splits a template into its global fragment and one fragment per agent.
pub fn split_into_fragments(template_name: &str, original: &JsonValue) -> (r: Result<
    Vec<Fragment>,
    DecomposeError,
>)
    requires
        original@.wf(),
    ensures
        split_outcome(r) == split_spec(template_name@, original@),
        r is Err ==> (r matches Err(DecomposeError::InvalidAgentName(_)) || r matches Err(
            DecomposeError::NoAgentKey,
        )),
{
    let obj = match original {
        JsonValue::Object(o) => o,
        _ => {
            return Err(DecomposeError::NoAgentKey);
        },
    };
    proof {
        lemma_object_view(obj);
        lemma_wf_members(original@);
    }
    let agents = match obj.get("agent") {
        Some(JsonValue::Object(a)) => a,
        _ => {
            proof {
                if entries_get(obj@, "agent"@) matches Some(Json::Object(_)) {
                    assert(false);
                }
            }
            return Err(DecomposeError::NoAgentKey);
        },
    };
    proof {
        lemma_object_view(agents);
    }
    let mut global_obj = obj.deep_clone();
    let empty = JsonMap::new();
    proof {
        lemma_object_view(&empty);
    }
    global_obj.insert(to_owned_string("agent"), JsonValue::Object(empty));
    let global_filename = concat3("_", template_name, ".json");
    let gv = JsonValue::Object(global_obj);
    proof {
        lemma_object_view(&global_obj);
    }
    let mut fragments: Vec<Fragment> = Vec::new();
    fragments.push(Fragment { filename: global_filename, value: gv });
    let ghost g = (global_fragment_name(template_name@), Json::Object(
        entries_put(obj@, "agent"@, Json::Object(Seq::empty())),
    ));
    proof {
        assert(fragments_view(fragments@) =~= seq![g]);
        assert(agents@.subrange(0, 0) =~= Seq::<(Seq<char>, Json)>::empty());
        assert(seq![g] + Seq::<(Seq<char>, Json)>::empty() =~= seq![g]);
    }
    let mut i: usize = 0;
    while i < agents.entries.len()
        invariant
            i <= agents.entries.len(),
            agent_fragments_spec(agents@.subrange(0, i as int)) matches Ok(f) && fragments_view(
                fragments@,
            ) == seq![g] + f,
            original@ == Json::Object(obj@),
            entries_get(obj@, "agent"@) == Some(Json::Object(agents@)),
            g == (global_fragment_name(template_name@), Json::Object(
                entries_put(obj@, "agent"@, Json::Object(Seq::empty())),
            )),
        decreases agents.entries.len() - i,
    {
        let name = &agents.entries[i].0;
        let v = &agents.entries[i].1;
        let ghost f = agent_fragments_spec(agents@.subrange(0, i as int))->Ok_0;
        proof {
            let next = agents@.subrange(0, i + 1);
            assert(next.drop_last() =~= agents@.subrange(0, i as int));
            assert(next.last() == (name@, v@));
        }
        match validate_agent_name(name.as_str()) {
            Err(e) => {
                proof {
                    lemma_split_error(agents@, i as int);
                }
                return Err(e);
            },
            Ok(()) => {},
        }
        let frag_value = agent_fragment_value(name, v);
        let ghost before = fragments_view(fragments@);
        fragments.push(Fragment { filename: concat(name.as_str(), ".json"), value: frag_value });
        proof {
            assert(fragments_view(fragments@) =~= before.push((name@ + ".json"@, agent_fragment(name@, v@))));
            assert(seq![g] + f.push((name@ + ".json"@, agent_fragment(name@, v@))) =~= (seq![g] + f).push(
                (name@ + ".json"@, agent_fragment(name@, v@)),
            ));
        }
        i = i + 1;
    }
    proof {
        assert(agents@.subrange(0, agents@.len() as int) =~= agents@);
    }
    Ok(fragments)
}

proof fn lemma_split_error(agents: Entries, i: int)
    requires
        0 <= i < agents.len(),
        agent_fragments_spec(agents.subrange(0, i)) is Ok,
        agent_fragments_spec(agents.subrange(0, i + 1)) is Err,
    ensures
        agent_fragments_spec(agents) == agent_fragments_spec(agents.subrange(0, i + 1)),
    decreases agents.len() - i,
{
    if i + 1 == agents.len() {
        assert(agents.subrange(0, i + 1) =~= agents);
    } else {
        let d = agents.drop_last();
        assert(d.subrange(0, i) =~= agents.subrange(0, i));
        assert(d.subrange(0, i + 1) =~= agents.subrange(0, i + 1));
        lemma_split_error(d, i);
    }
}

/// The first existing file for a template name, else `NotASingleFile` when
/// only its fragment directory exists, else the `.yml` path (which then
/// fails to load).
pub open spec fn decompose_source_spec(config_dir: Seq<char>, name: Seq<char>, p: TemplateProbe) -> Option<Seq<char>> {
    if p.json_file {
        Some(template_file_path(config_dir, name, "json"@))
    } else if p.yaml_file {
        Some(template_file_path(config_dir, name, "yaml"@))
    } else if p.yml_file {
        Some(template_file_path(config_dir, name, "yml"@))
    } else if p.dir_exists {
        None
    } else {
        Some(template_file_path(config_dir, name, "yml"@))
    }
}

/// The single file to decompose for a template name.
pub fn resolve_decompose_source(config_dir: &str, name: &str, probe: &TemplateProbe) -> (r: Result<
    String,
    DecomposeError,
>)
    ensures
        match decompose_source_spec(config_dir@, name@, *probe) {
            Some(p) => r matches Ok(q) && q@ == p,
            None => r matches Err(DecomposeError::NotASingleFile { name: n }) && n@ == name@,
        },
{
    if probe.json_file {
        return Ok(template_file(config_dir, name, "json"));
    }
    if probe.yaml_file {
        return Ok(template_file(config_dir, name, "yaml"));
    }
    if probe.yml_file {
        return Ok(template_file(config_dir, name, "yml"));
    }
    if probe.dir_exists {
        return Err(DecomposeError::NotASingleFile { name: to_owned_string(name) });
    }
    Ok(template_file(config_dir, name, "yml"))
}

/// The model of why a decomposition stops before anything is written.
pub enum PlanFailure {
    InvalidTemplateName(Seq<char>),
    NotASingleFile(Seq<char>),
    Template,
    Split(SplitFailure),
    TargetExists(Seq<char>),
}

/// The model of a decomposition error, as far as planning gives one.
pub open spec fn plan_failure(e: DecomposeError) -> Option<PlanFailure> {
    match e {
        DecomposeError::InvalidTemplateName(n) => Some(PlanFailure::InvalidTemplateName(n@)),
        DecomposeError::NotASingleFile { name } => Some(PlanFailure::NotASingleFile(name@)),
        DecomposeError::Template(_) => Some(PlanFailure::Template),
        DecomposeError::NoAgentKey => Some(PlanFailure::Split(SplitFailure::NoAgentKey)),
        DecomposeError::InvalidAgentName(n) => Some(PlanFailure::Split(SplitFailure::InvalidAgentName(n@))),
        DecomposeError::TargetExists { path } => Some(PlanFailure::TargetExists(path@)),
        _ => None,
    }
}

/// A decomposition, step by step, before anything is written: the name must
/// be a plain template name, it must resolve to a single file, the file must
/// load and split, and an existing fragment directory is only replaced with
/// `force`. The result is the file, the target directory, the fragments and
/// the template.
pub open spec fn plan_spec(
    config_dir: Seq<char>,
    name: Seq<char>,
    probe: TemplateProbe,
    loaded: Result<Json, ()>,
    target_exists: bool,
    force: bool,
) -> Result<(Seq<char>, Seq<char>, Seq<(Seq<char>, Json)>, Json), PlanFailure> {
    if !valid_template_name(name) {
        Err(PlanFailure::InvalidTemplateName(name))
    } else {
        match decompose_source_spec(config_dir, name, probe) {
            None => Err(PlanFailure::NotASingleFile(name)),
            Some(file) => match loaded {
                Err(_) => Err(PlanFailure::Template),
                Ok(t) => match split_spec(name, t) {
                    Err(f) => Err(PlanFailure::Split(f)),
                    Ok(frags) => {
                        let target = fragment_dir_path(config_dir, name);
                        if target_exists && !force {
                            Err(PlanFailure::TargetExists(target))
                        } else {
                            Ok((file, target, frags, t))
                        }
                    },
                },
            },
        }
    }
}

/// What a decomposition writes: the fragments of the template file into
/// the target directory; and the template they must merge back into.
pub struct DecomposePlan {
    pub file_path: String,
    pub target_dir: String,
    pub fragments: Vec<Fragment>,
    pub original: JsonValue,
}

/// Plans a decomposition from what the file system shows of the template
/// name, the loaded template file (or why it failed to load) and whether
/// the target directory exists.
pub fn plan_decompose(
    options: &DecomposeOptions,
    probe: &TemplateProbe,
    loaded: Result<JsonValue, TemplateError>,
    target_exists: bool,
) -> (r: Result<DecomposePlan, DecomposeError>)
    requires
        loaded matches Ok(t) ==> t@.wf(),
    ensures
        match plan_spec(
            options.config_dir@,
            options.template@,
            *probe,
            match loaded {
                Ok(t) => Ok(t@),
                Err(_) => Err(()),
            },
            target_exists,
            options.force,
        ) {
            Ok((f, t, frags, o)) => r matches Ok(p) && p.file_path@ == f && p.target_dir@ == t
                && fragments_view(p.fragments@) == frags && p.original@ == o,
            Err(fail) => r matches Err(e) && plan_failure(e) == Some(fail),
        },
{
    let name = options.template.as_str();
    check_template_name(name)?;
    let file_path = resolve_decompose_source(options.config_dir.as_str(), name, probe)?;
    let original = match loaded {
        Ok(t) => t,
        Err(e) => {
            return Err(DecomposeError::Template(e));
        },
    };
    let fragments = split_into_fragments(name, &original)?;
    let target_dir = fragment_dir(options.config_dir.as_str(), name);
    check_target(target_dir.as_str(), target_exists, options.force)?;
    Ok(DecomposePlan { file_path, target_dir, fragments, original })
}

/// Rejects names that are not plain template names.
pub fn check_template_name(name: &str) -> (r: Result<(), DecomposeError>)
    ensures
        r is Ok <==> valid_template_name(name@),
        r matches Err(DecomposeError::InvalidTemplateName(n)) ==> n@ == name@,
        r is Err ==> r matches Err(DecomposeError::InvalidTemplateName(_)),
{
    if !is_valid_template_name(name) {
        return Err(DecomposeError::InvalidTemplateName(to_owned_string(name)));
    }
    Ok(())
}

/// An existing fragment directory is only replaced with `force`.
pub fn check_target(target_dir: &str, target_exists: bool, force: bool) -> (r: Result<(), DecomposeError>)
    ensures
        r is Ok <==> (!target_exists || force),
        r matches Err(DecomposeError::TargetExists { path }) ==> path@ == target_dir@,
        r is Err ==> r matches Err(DecomposeError::TargetExists { .. }),
{
    if target_exists && !force {
        return Err(DecomposeError::TargetExists { path: to_owned_string(target_dir) });
    }
    Ok(())
}

/// The fragments reloaded from their directory must equal the template.
pub fn verify_roundtrip(original: &JsonValue, reassembled: &JsonValue) -> (r: Result<(), DecomposeError>)
    ensures
        r is Ok <==> original@ == reassembled@,
        r is Err ==> r matches Err(DecomposeError::RoundtripMismatch),
{
    if !json_eq(reassembled, original) {
        return Err(DecomposeError::RoundtripMismatch);
    }
    Ok(())
}

// ---------------------------------------------------------------------------
// Timestamps and backups
// ---------------------------------------------------------------------------

/// The civil date (year, month, day) of a day count from 1970-01-01 in the
/// proleptic Gregorian calendar, by eras of 400 years starting on March 1.
pub open spec fn civil_from_days(days: int) -> (int, int, int) {
    let z = days + 719468;
    let era = z / 146097;
    let doe = z - era * 146097;
    let yoe = (doe - doe / 1460 + doe / 36524 - doe / 146096) / 365;
    let y = yoe + era * 400;
    let doy = doe - (365 * yoe + yoe / 4 - yoe / 100);
    let mp = (5 * doy + 2) / 153;
    let d = doy - (153 * mp + 2) / 5 + 1;
    let m = if mp < 10 {
        mp + 3
    } else {
        mp - 9
    };
    (if m <= 2 {
        y + 1
    } else {
        y
    }, m, d)
}

/// Converts a day count since 1970-01-01 to (year, month, day).
#[verifier::spinoff_prover]
pub fn days_to_ymd(days: u64) -> (r: (u64, u64, u64))
    requires
        days <= 0x3fff_ffff_ffff_ffff,
    ensures
        r.0 == civil_from_days(days as int).0 as u64,
        r.1 == civil_from_days(days as int).1 as u64,
        r.2 == civil_from_days(days as int).2 as u64,
{
    let z: i64 = days as i64 + 719468;
    let era: i64 = z / 146097;
    proof {
        assert(era * 146097 <= z) by (nonlinear_arith)
            requires
                era == z / 146097,
                z >= 0,
        ;
        assert(z - era * 146097 < 146097) by (nonlinear_arith)
            requires
                era == z / 146097,
                z >= 0,
        ;
        assert(0 <= era <= z) by (nonlinear_arith)
            requires
                era == z / 146097,
                z >= 0,
        ;
    }
    let doe: i64 = z - era * 146097;
    let yoe: i64 = (doe - doe / 1460 + doe / 36524 - doe / 146096) / 365;
    proof {
        assert(0 <= yoe <= 401);
    }
    let y: i64 = yoe + era * 400;
    let doy: i64 = doe - (365 * yoe + yoe / 4 - yoe / 100);
    let mp: i64 = (5 * doy + 2) / 153;
    let d: i64 = doy - (153 * mp + 2) / 5 + 1;
    let m: i64 = if mp < 10 {
        mp + 3
    } else {
        mp - 9
    };
    let year: i64 = if m <= 2 {
        y + 1
    } else {
        y
    };
    (year as u64, m as u64, d as u64)
}


/// `YYYYMMDDTHHMMSS` (UTC) of a count of seconds since the Unix epoch.
pub open spec fn timestamp_text(secs: nat) -> Seq<char> {
    let days = secs / 86400;
    let tod = secs % 86400;
    let ymd = civil_from_days(days as int);
    zero_pad(decimal((ymd.0 as u64) as nat), 4) + zero_pad(decimal((ymd.1 as u64) as nat), 2)
        + zero_pad(decimal((ymd.2 as u64) as nat), 2) + "T"@ + zero_pad(decimal(tod / 3600), 2)
        + zero_pad(decimal((tod % 3600) / 60), 2) + zero_pad(decimal(tod % 60), 2)
}

/// Formats seconds since the Unix epoch as `YYYYMMDDTHHMMSS` (UTC).
pub fn format_timestamp(secs: u64) -> (r: String)
    ensures
        r@ == timestamp_text(secs as nat),
{
    let days = secs / 86400;
    let time_of_day = secs % 86400;
    let hours = time_of_day / 3600;
    let minutes = (time_of_day % 3600) / 60;
    let seconds = time_of_day % 60;
    let (year, month, day) = days_to_ymd(days);
    let date = concat3(
        u64_to_padded(year, 4).as_str(),
        u64_to_padded(month, 2).as_str(),
        u64_to_padded(day, 2).as_str(),
    );
    let time = concat3(
        u64_to_padded(hours, 2).as_str(),
        u64_to_padded(minutes, 2).as_str(),
        u64_to_padded(seconds, 2).as_str(),
    );
    concat3(date.as_str(), "T", time.as_str())
}

/// The current time in whole seconds since the Unix epoch, read from
/// `std::time::SystemTime::now` (0 when the clock is before the epoch).
/// Nothing is claimed of the value.
#[verifier::external_body]
fn unix_now_secs() -> (r: u64) {
    std::time::SystemTime::now().duration_since(std::time::UNIX_EPOCH).unwrap_or_default().as_secs()
}

/// The backup name of `original` at `secs`: `<original>.bak.<YYYYMMDDTHHMMSS>`.
pub open spec fn backup_path_spec(original: Seq<char>, secs: nat) -> Seq<char> {
    original + ".bak."@ + timestamp_text(secs)
}

/// The backup name of `original` at the time `secs`.
pub fn backup_path_at(original: &str, secs: u64) -> (r: String)
    ensures
        r@ == backup_path_spec(original@, secs as nat),
{
    let ts = format_timestamp(secs);
    concat3(original, ".bak.", ts.as_str())
}

/// The backup name of `original` now: `<original>.bak.<timestamp>` for some
/// time.
pub fn make_backup_path(original: &str) -> (r: String)
    ensures
        exists|secs: nat| secs <= u64::MAX && r@ == backup_path_spec(original@, secs),
{
    let secs = unix_now_secs();
    backup_path_at(original, secs)
}

/// `s` padded on the right with spaces to `width` characters.
pub open spec fn pad_right(s: Seq<char>, width: nat) -> Seq<char> {
    if s.len() >= width {
        s
    } else {
        s + Seq::new((width - s.len()) as nat, |_i: int| ' ')
    }
}

fn pad_right_exec(s: &str, width: usize) -> (r: String)
    ensures
        r@ == pad_right(s@, width as nat),
{
    let mut cs = chars_of(s);
    let n = cs.len();
    if n >= width {
        return crate::strings::string_from_chars(cs.as_slice());
    }
    let ghost start = cs@;
    let mut k: usize = n;
    while k < width
        invariant
            n <= k <= width,
            n == start.len(),
            cs@ == start + Seq::new((k - n) as nat, |_i: int| ' '),
        decreases width - k,
    {
        cs.push(' ');
        proof {
            assert(cs@ =~= start + Seq::new((k + 1 - n) as nat, |_i: int| ' '));
        }
        k = k + 1;
    }
    crate::strings::string_from_chars(cs.as_slice())
}

/// The keys of an object joined by `, `.
pub open spec fn joined_keys(e: Entries) -> Seq<char>
    decreases e.len(),
{
    if e.len() == 0 {
        Seq::empty()
    } else if e.len() == 1 {
        e[0].0
    } else {
        joined_keys(e.drop_last()) + ", "@ + e.last().0
    }
}

/// The description of a fragment in the plan: the keys of the global
/// fragment, or the agent of an agent fragment.
pub open spec fn fragment_description(filename: Seq<char>, value: Json) -> Seq<char> {
    if filename.len() > 0 && filename[0] == '_' {
        "global: "@ + match value {
            Json::Object(e) => joined_keys(e),
            _ => Seq::empty(),
        }
    } else {
        "agent: "@ + if crate::strings::seq_ends_with(filename, ".json"@) {
            filename.subrange(0, filename.len() - 5)
        } else {
            filename
        }
    }
}

/// One plan line per fragment.
pub open spec fn fragment_lines(f: Seq<(Seq<char>, Json)>) -> Seq<char>
    decreases f.len(),
{
    if f.len() == 0 {
        Seq::empty()
    } else {
        fragment_lines(f.drop_last()) + "[DRY-RUN]   "@ + pad_right(f.last().0, 20) + "("@
            + fragment_description(f.last().0, f.last().1) + ")\n"@
    }
}

/// The decomposition plan shown by a dry run.
pub open spec fn preview_spec(template: Seq<char>, file_path: Seq<char>, target_dir: Seq<char>, f: Seq<(Seq<char>, Json)>) -> Seq<char> {
    "[DRY-RUN] Decompose template '"@ + template + "' ("@ + file_path + ")\n"@
        + "[DRY-RUN] Target directory: "@ + target_dir + "/\n"@ + "[DRY-RUN] Fragments:\n"@
        + fragment_lines(f) + "[DRY-RUN] Total: "@ + decimal(f.len()) + " fragments (1 global + "@
        + decimal(if f.len() > 0 { (f.len() - 1) as nat } else { 0 }) + " agents)\n"@
}

fn keys_joined(m: &JsonMap) -> (r: String)
    ensures
        r@ == joined_keys(m@),
{
    let mut out = to_owned_string("");
    proof {
        reveal_strlit("");
        assert(m@.subrange(0, 0) =~= Seq::<(Seq<char>, Json)>::empty());
    }
    let mut i: usize = 0;
    while i < m.entries.len()
        invariant
            i <= m.entries.len(),
            out@ == joined_keys(m@.subrange(0, i as int)),
        decreases m.entries.len() - i,
    {
        proof {
            let next = m@.subrange(0, i + 1);
            assert(next.drop_last() =~= m@.subrange(0, i as int));
            assert(next.last().0 == m.entries@[i as int].0@);
            if i == 0 {
                assert(next.len() == 1);
                assert(next[0].0 == m.entries@[0].0@);
            }
        }
        if i == 0 {
            out = m.entries[i].0.clone();
        } else {
            out = concat3(out.as_str(), ", ", m.entries[i].0.as_str());
        }
        i = i + 1;
    }
    proof {
        assert(m@.subrange(0, m@.len() as int) =~= m@);
    }
    out
}

fn describe_fragment(f: &Fragment) -> (r: String)
    ensures
        r@ == fragment_description(f.filename@, f.value@),
{
    let starts = crate::strings::starts_with(f.filename.as_str(), "_");
    proof {
        reveal_strlit("_");
        assert("_"@ =~= seq!['_']);
        if f.filename@.len() > 0 {
            assert(f.filename@.subrange(0, 1) =~= seq![f.filename@[0]]);
        }
    }
    if starts {
        let keys = match &f.value {
            JsonValue::Object(m) => {
                proof {
                    lemma_object_view(m);
                }
                keys_joined(m)
            },
            _ => to_owned_string(""),
        };
        proof {
            reveal_strlit("");
            assert(""@ =~= Seq::<char>::empty());
            assert(keys@ == match f.value@ {
                Json::Object(e) => joined_keys(e),
                _ => Seq::<char>::empty(),
            });
        }
        let r = concat("global: ", keys.as_str());
        proof {
            reveal_strlit("_");
            assert("_"@.len() == 1);
            assert(f.filename@.len() >= 1);
            assert(f.filename@.subrange(0, 1) == "_"@);
            assert(f.filename@.subrange(0, 1)[0] == f.filename@[0]);
            assert("_"@[0] == '_');
        }
        assert(r@ == "global: "@ + keys@);
        r
    } else {
        let name = match crate::strings::strip_suffix(f.filename.as_str(), ".json") {
            Some(n) => n,
            None => f.filename.clone(),
        };
        proof {
            reveal_strlit(".json");
            assert(".json"@.len() == 5);
        }
        let r = concat("agent: ", name.as_str());
        assert(!(f.filename@.len() > 0 && f.filename@[0] == '_'));
        assert(r@ == "agent: "@ + name@);
        r
    }
}

/// The plan a dry run prints for a decomposition.
pub fn preview_text(template: &str, file_path: &str, target_dir: &str, fragments: &Vec<Fragment>) -> (r: String)
    ensures
        r@ == preview_spec(template@, file_path@, target_dir@, fragments_view(fragments@)),
{
    let head1 = concat3("[DRY-RUN] Decompose template '", template, "' (");
    let head2 = concat3(head1.as_str(), file_path, ")\n");
    let head3 = concat3("[DRY-RUN] Target directory: ", target_dir, "/\n");
    let mut out = concat3(head2.as_str(), head3.as_str(), "[DRY-RUN] Fragments:\n");
    let ghost start = out@;
    let ghost fv = fragments_view(fragments@);
    let mut i: usize = 0;
    proof {
        assert(fv.subrange(0, 0) =~= Seq::<(Seq<char>, Json)>::empty());
        assert(out@ =~= start + fragment_lines(fv.subrange(0, 0)));
    }
    while i < fragments.len()
        invariant
            i <= fragments.len(),
            fv == fragments_view(fragments@),
            out@ == start + fragment_lines(fv.subrange(0, i as int)),
        decreases fragments.len() - i,
    {
        let f = &fragments[i];
        let padded = pad_right_exec(f.filename.as_str(), 20);
        let desc = describe_fragment(f);
        let line1 = concat3("[DRY-RUN]   ", padded.as_str(), "(");
        let line = concat3(line1.as_str(), desc.as_str(), ")\n");
        let ghost before = out@;
        out = concat(out.as_str(), line.as_str());
        proof {
            let next = fv.subrange(0, i + 1);
            assert(next.drop_last() =~= fv.subrange(0, i as int));
            assert(next.last() == (f.filename@, f.value@));
            assert(out@ =~= start + fragment_lines(next));
        }
        i = i + 1;
    }
    proof {
        assert(fv.subrange(0, fv.len() as int) =~= fv);
    }
    let n = fragments.len();
    let agents = if n > 0 { n - 1 } else { 0 };
    let total1 = concat3("[DRY-RUN] Total: ", crate::strings::u64_to_string(n as u64).as_str(), " fragments (1 global + ");
    let total = concat3(total1.as_str(), crate::strings::u64_to_string(agents as u64).as_str(), " agents)\n");
    concat(out.as_str(), total.as_str())
}

} // verus!
