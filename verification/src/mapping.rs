//! Decomposition of a template into named fragments and the check of a set
//! of fragments: the global fragment `<template>.json` holds every member
//! but `agent`, and each agent gets `<agent>.json` holding
//! `{"agent": {<agent>: ...}}`.

use vstd::prelude::*;
use crate::json::{
    Json, Entries, JsonMap, JsonValue, lemma_object_view, lemma_wf_members, lemma_wf_intro, empty_object, merge_opt,
    opt_get, opt_object_wf, lemma_merge_opt_members, lemma_merge_opt_single,
};
use crate::keyed::{key_index, lemma_key_index, lemma_key_index_found, lemma_sorted_unique, lemma_entries_ext, has_entry};
use crate::template::merge_all;
use crate::keyed::{entries_get, entries_put, entries_remove, has_key, keys_sorted, lemma_put_sorted, lemma_remove_sorted};
use crate::strings::{concat, contains_char, contains_str, seq_contains_sub, seq_starts_with, starts_with, str_eq, to_owned_string};
use crate::template::{is_valid_template_name, valid_template_name};

verus! {

/// Fragments by file name.
pub type FragmentMap = JsonMap;

/// Why a decomposition or a fragment check failed.
#[derive(Debug)]
pub enum MappingError {
    NotAnObject,
    AgentNotAnObject,
    AgentEntryNotAnObject { name: String },
    InvalidAgentName { name: String },
    InvalidTemplateName { name: String },
    FragmentCollision { name: String },
    Write { path: String, source: std::io::Error },
}

/// The model of a mapping failure.
pub enum MappingFailure {
    NotAnObject,
    AgentNotAnObject,
    AgentEntryNotAnObject(Seq<char>),
    InvalidAgentName(Seq<char>),
    InvalidTemplateName(Seq<char>),
    FragmentCollision(Seq<char>),
    /// Writing the fragment at this path failed (the I/O error itself is
    /// opaque).
    Write(Seq<char>),
}

impl View for MappingError {
    type V = MappingFailure;

    open spec fn view(&self) -> MappingFailure {
        match self {
            MappingError::NotAnObject => MappingFailure::NotAnObject,
            MappingError::AgentNotAnObject => MappingFailure::AgentNotAnObject,
            MappingError::AgentEntryNotAnObject { name } => MappingFailure::AgentEntryNotAnObject(name@),
            MappingError::InvalidAgentName { name } => MappingFailure::InvalidAgentName(name@),
            MappingError::InvalidTemplateName { name } => MappingFailure::InvalidTemplateName(name@),
            MappingError::FragmentCollision { name } => MappingFailure::FragmentCollision(name@),
            MappingError::Write { path, .. } => MappingFailure::Write(path@),
        }
    }
}

/// An agent name usable as a fragment file name: not empty, no path
/// separator, no `..`, not starting with a dot.
pub open spec fn agent_name_ok(n: Seq<char>) -> bool {
    &&& n.len() > 0
    &&& !n.contains('/')
    &&& !n.contains('\\')
    &&& !seq_contains_sub(n, ".."@)
    &&& !seq_starts_with(n, "."@)
}

/// The fragment of one agent: `{"agent": {<name>: v}}`.
pub open spec fn wrap_agent(name: Seq<char>, v: Json) -> Json {
    Json::Object(seq![("agent"@, Json::Object(seq![(name, v)]))])
}

/// The fragment file name of a name.
pub open spec fn fragment_name(n: Seq<char>) -> Seq<char> {
    n + ".json"@
}

/// The fragments of the agents, added in order to `acc`; the first invalid
/// agent stops the decomposition.
pub open spec fn agent_fragments(acc: Entries, global: Seq<char>, agents: Entries) -> Result<
    Entries,
    MappingFailure,
>
    decreases agents.len(),
{
    if agents.len() == 0 {
        Ok(acc)
    } else {
        match agent_fragments(acc, global, agents.drop_last()) {
            Err(e) => Err(e),
            Ok(f) => {
                let n = agents.last().0;
                let v = agents.last().1;
                if !agent_name_ok(n) {
                    Err(MappingFailure::InvalidAgentName(n))
                } else if !(v is Object) {
                    Err(MappingFailure::AgentEntryNotAnObject(n))
                } else if fragment_name(n) == global {
                    Err(MappingFailure::FragmentCollision(n))
                } else {
                    Ok(entries_put(f, fragment_name(n), wrap_agent(n, v)))
                }
            },
        }
    }
}

/// The decomposition of `v` for template `name`.
pub open spec fn decompose_spec(name: Seq<char>, v: Json) -> Result<Entries, MappingFailure> {
    if !valid_template_name(name) {
        Err(MappingFailure::InvalidTemplateName(name))
    } else {
        match v {
            Json::Object(obj) => {
                let global = fragment_name(name);
                let first = entries_put(Seq::empty(), global, Json::Object(entries_remove(obj, "agent"@)));
                match entries_get(obj, "agent"@) {
                    None => Ok(first),
                    Some(Json::Object(agents)) => agent_fragments(first, global, agents),
                    Some(_) => Err(MappingFailure::AgentNotAnObject),
                }
            },
            _ => Err(MappingFailure::NotAnObject),
        }
    }
}

/// The check of one fragment.
pub open spec fn fragment_check(v: Json) -> Option<MappingFailure> {
    match v {
        Json::Object(obj) => match entries_get(obj, "agent"@) {
            None => None,
            Some(Json::Object(inner)) => if inner.len() != 1 {
                Some(MappingFailure::AgentNotAnObject)
            } else if !agent_name_ok(inner[0].0) {
                Some(MappingFailure::InvalidAgentName(inner[0].0))
            } else if !(inner[0].1 is Object) {
                Some(MappingFailure::AgentEntryNotAnObject(inner[0].0))
            } else {
                None
            },
            Some(_) => Some(MappingFailure::AgentNotAnObject),
        },
        _ => Some(MappingFailure::NotAnObject),
    }
}

/// The first failing fragment's failure, in order.
pub open spec fn fragments_check(e: Entries) -> Option<MappingFailure>
    decreases e.len(),
{
    if e.len() == 0 {
        None
    } else {
        match fragments_check(e.drop_last()) {
            Some(f) => Some(f),
            None => fragment_check(e.last().1),
        }
    }
}

/// The model of a decomposition's result.
pub open spec fn decompose_outcome(r: Result<FragmentMap, MappingError>) -> Result<Entries, MappingFailure> {
    match r {
        Ok(m) => Ok(m@),
        Err(e) => Err(e@),
    }
}

/// Checks that an agent name can be a fragment file name.
pub fn validate_agent_name(name: &str) -> (r: Result<(), MappingError>)
    ensures
        r is Ok <==> agent_name_ok(name@),
        r matches Err(e) ==> e@ == MappingFailure::InvalidAgentName(name@),
{
    if name.is_empty() || contains_char(name, '/') || contains_char(name, '\\') || contains_str(name, "..")
        || starts_with(name, ".") {
        return Err(MappingError::InvalidAgentName { name: to_owned_string(name) });
    }
    Ok(())
}

/// A way of splitting a template into fragment files and of checking a set
/// of fragments.
pub trait FragmentMapper {
    /// The fragments of `value` for template `name`, by file name, or why
    /// it cannot be split.
    spec fn decomposition(&self, name: Seq<char>, value: Json) -> Result<Entries, MappingFailure>;

    /// The first problem among `fragments`, if any.
    spec fn check(&self, fragments: Entries) -> Option<MappingFailure>;

    /// Splits template `template_name` into fragments.
    fn decompose(&self, template_name: &str, value: &JsonValue) -> (r: Result<FragmentMap, MappingError>)
        requires
            value@.wf(),
        ensures
            decompose_outcome(r) == self.decomposition(template_name@, value@),
            r matches Ok(m) ==> keys_sorted(m@),
    ;

    /// Checks that a set of fragments is well formed.
    fn validate(&self, fragments: &FragmentMap) -> (r: Result<(), MappingError>)
        requires
            forall|i: int| 0 <= i < fragments@.len() ==> #[trigger] fragments@[i].1.wf(),
        ensures
            match self.check(fragments@) {
                None => r is Ok,
                Some(f) => r matches Err(e) && e@ == f,
            },
    ;
}

/// The default decomposition strategy.
pub struct DefaultMapping;

fn wrap_agent_value(name: &String, v: &JsonValue) -> (r: JsonValue)
    ensures
        r@ == wrap_agent(name@, v@),
{
    let mut inner = JsonMap::new();
    inner.insert(name.clone(), v.deep_clone());
    proof {
        lemma_put_sorted(Seq::<(Seq<char>, Json)>::empty(), name@, v@);
        assert(inner@ =~= seq![(name@, v@)]);
    }
    let mut outer = JsonMap::new();
    let inner_v = JsonValue::Object(inner);
    proof {
        lemma_object_view(&inner);
        lemma_put_sorted(Seq::<(Seq<char>, Json)>::empty(), "agent"@, Json::Object(inner@));
    }
    outer.insert(to_owned_string("agent"), inner_v);
    proof {
        assert(outer@ =~= seq![("agent"@, Json::Object(inner@))]);
    }
    let r = JsonValue::Object(outer);
    proof {
        lemma_object_view(&outer);
    }
    r
}

impl FragmentMapper for DefaultMapping {
    /// The global fragment is always present, and each agent adds one.
    open spec fn decomposition(&self, name: Seq<char>, value: Json) -> Result<Entries, MappingFailure> {
        decompose_spec(name, value)
    }

    open spec fn check(&self, fragments: Entries) -> Option<MappingFailure> {
        fragments_check(fragments)
    }

    /// Splits template `template_name` into fragments: the global fragment
    /// is always present, and each agent adds one.
    fn decompose(&self, template_name: &str, value: &JsonValue) -> (r: Result<FragmentMap, MappingError>) {
        if !is_valid_template_name(template_name) {
            return Err(MappingError::InvalidTemplateName { name: to_owned_string(template_name) });
        }
        let obj = match value {
            JsonValue::Object(o) => o,
            _ => {
                return Err(MappingError::NotAnObject);
            },
        };
        proof {
            lemma_object_view(obj);
            lemma_wf_members(value@);
        }
        let mut global = obj.deep_clone();
        global.remove("agent");
        let global_filename = concat(template_name, ".json");
        let mut fragments = JsonMap::new();
        let gv = JsonValue::Object(global);
        proof {
            lemma_object_view(&global);
        }
        fragments.insert(global_filename.clone(), gv);
        match obj.get("agent") {
            None => Ok(fragments),
            Some(JsonValue::Object(agents)) => {
                proof {
                    lemma_object_view(agents);
                }
                let ghost first = fragments@;
                let mut i: usize = 0;
                proof {
                    assert(agents@.subrange(0, 0) =~= Seq::<(Seq<char>, Json)>::empty());
                }
                while i < agents.entries.len()
                    invariant
                        i <= agents.entries.len(),
                        agent_fragments(first, global_filename@, agents@.subrange(0, i as int))
                            == Ok::<Entries, MappingFailure>(fragments@),
                        keys_sorted(fragments@),
                        entries_get(obj@, "agent"@) == Some(Json::Object(agents@)),
                        first == entries_put(
                            Seq::empty(),
                            fragment_name(template_name@),
                            Json::Object(entries_remove(obj@, "agent"@)),
                        ),
                        value@ == Json::Object(obj@),
                        valid_template_name(template_name@),
                        global_filename@ == fragment_name(template_name@),
                    decreases agents.entries.len() - i,
                {
                    let name = &agents.entries[i].0;
                    let v = &agents.entries[i].1;
                    proof {
                        let next = agents@.subrange(0, i + 1);
                        assert(next.drop_last() =~= agents@.subrange(0, i as int));
                        assert(next.last() == (name@, v@));
                    }
                    match validate_agent_name(name.as_str()) {
                        Err(e) => {
                            proof {
                                lemma_fragments_error(first, global_filename@, agents@, i as int);
                            }
                            return Err(e);
                        },
                        Ok(()) => {},
                    }
                    if !v.is_object() {
                        proof {
                            lemma_fragments_error(first, global_filename@, agents@, i as int);
                        }
                        return Err(MappingError::AgentEntryNotAnObject { name: name.clone() });
                    }
                    let fragment_name = concat(name.as_str(), ".json");
                    if str_eq(fragment_name.as_str(), global_filename.as_str()) {
                        proof {
                            lemma_fragments_error(first, global_filename@, agents@, i as int);
                        }
                        return Err(MappingError::FragmentCollision { name: name.clone() });
                    }
                    let wrapped = wrap_agent_value(name, v);
                    fragments.insert(fragment_name, wrapped);
                    i = i + 1;
                }
                proof {
                    assert(agents@.subrange(0, agents@.len() as int) =~= agents@);
                }
                Ok(fragments)
            },
            Some(_) => Err(MappingError::AgentNotAnObject),
        }
    }

    /// Checks that every fragment is an object whose `agent` member, when
    /// present, wraps exactly one well-named agent object.
    fn validate(&self, fragments: &FragmentMap) -> (r: Result<(), MappingError>) {
        let mut i: usize = 0;
        proof {
            assert(fragments@.subrange(0, 0) =~= Seq::<(Seq<char>, Json)>::empty());
        }
        while i < fragments.entries.len()
            invariant
                i <= fragments.entries.len(),
                forall|j: int| 0 <= j < fragments@.len() ==> #[trigger] fragments@[j].1.wf(),
                fragments_check(fragments@.subrange(0, i as int)) is None,
            decreases fragments.entries.len() - i,
        {
            let value = &fragments.entries[i].1;
            proof {
                let next = fragments@.subrange(0, i + 1);
                assert(next.drop_last() =~= fragments@.subrange(0, i as int));
                assert(next.last().1 == value@);
                assert(value@.wf());
            }
            match check_fragment(value) {
                Some(e) => {
                    proof {
                        lemma_check_error(fragments@, i as int);
                    }
                    return Err(e);
                },
                None => {},
            }
            i = i + 1;
        }
        proof {
            assert(fragments@.subrange(0, fragments@.len() as int) =~= fragments@);
        }
        Ok(())
    }
}

fn check_fragment(value: &JsonValue) -> (r: Option<MappingError>)
    requires
        value@.wf(),
    ensures
        match fragment_check(value@) {
            None => r is None,
            Some(f) => r matches Some(e) && e@ == f,
        },
{
    let obj = match value {
        JsonValue::Object(o) => o,
        _ => {
            return Some(MappingError::NotAnObject);
        },
    };
    proof {
        lemma_object_view(obj);
        lemma_wf_members(value@);
    }
    match obj.get("agent") {
        None => None,
        Some(JsonValue::Object(inner)) => {
            proof {
                lemma_object_view(inner);
            }
            if inner.entries.len() != 1 {
                return Some(MappingError::AgentNotAnObject);
            }
            let name = &inner.entries[0].0;
            match validate_agent_name(name.as_str()) {
                Err(e) => {
                    return Some(e);
                },
                Ok(()) => {},
            }
            if !inner.entries[0].1.is_object() {
                return Some(MappingError::AgentEntryNotAnObject { name: name.clone() });
            }
            None
        },
        Some(_) => Some(MappingError::AgentNotAnObject),
    }
}

proof fn lemma_fragments_error(acc: Entries, global: Seq<char>, agents: Entries, i: int)
    requires
        0 <= i < agents.len(),
        agent_fragments(acc, global, agents.subrange(0, i)) is Ok,
        agent_fragments(acc, global, agents.subrange(0, i + 1)) is Err,
    ensures
        agent_fragments(acc, global, agents) == agent_fragments(acc, global, agents.subrange(0, i + 1)),
    decreases agents.len() - i,
{
    if i + 1 == agents.len() {
        assert(agents.subrange(0, i + 1) =~= agents);
    } else {
        let d = agents.drop_last();
        assert(d.subrange(0, i) =~= agents.subrange(0, i));
        assert(d.subrange(0, i + 1) =~= agents.subrange(0, i + 1));
        lemma_fragments_error(acc, global, d, i);
    }
}

proof fn lemma_check_error(e: Entries, i: int)
    requires
        0 <= i < e.len(),
        fragments_check(e.subrange(0, i)) is None,
        fragment_check(e[i].1) is Some,
    ensures
        fragments_check(e) == fragment_check(e[i].1),
    decreases e.len() - i,
{
    if i + 1 == e.len() {
        assert(e.drop_last() =~= e.subrange(0, i));
    } else {
        let d = e.drop_last();
        assert(d.subrange(0, i) =~= e.subrange(0, i));
        assert(d[i] == e[i]);
        lemma_check_error(d, i);
    }
}


/// Every fragment passes the check.
pub open spec fn all_fragments_ok(e: Entries) -> bool {
    forall|i: int| 0 <= i < e.len() ==> (#[trigger] fragment_check(e[i].1)) is None
}

proof fn lemma_check_all(e: Entries)
    requires
        all_fragments_ok(e),
    ensures
        fragments_check(e) is None,
    decreases e.len(),
{
    if e.len() > 0 {
        let d = e.drop_last();
        assert forall|i: int| 0 <= i < d.len() implies (#[trigger] fragment_check(d[i].1)) is None by {
            assert(d[i] == e[i]);
        }
        lemma_check_all(d);
        assert(fragment_check(e[e.len() - 1].1) is None);
    }
}

/// Adding a fragment that passes keeps every fragment passing.
proof fn lemma_put_ok(e: Entries, k: Seq<char>, v: Json)
    requires
        keys_sorted(e),
        all_fragments_ok(e),
        fragment_check(v) is None,
    ensures
        keys_sorted(entries_put(e, k, v)),
        all_fragments_ok(entries_put(e, k, v)),
{
    lemma_put_sorted(e, k, v);
    let r = entries_put(e, k, v);
    assert forall|i: int| 0 <= i < r.len() implies (#[trigger] fragment_check(r[i].1)) is None by {
        if r[i] != (k, v) {
            assert(crate::keyed::has_entry(e, r[i]));
            let j = choose|j: int| 0 <= j < e.len() && e[j] == r[i];
            assert(fragment_check(e[j].1) is None);
        }
    }
}

/// The fragment of an agent passes the check.
proof fn lemma_wrap_ok(n: Seq<char>, v: Json)
    requires
        agent_name_ok(n),
        v is Object,
    ensures
        fragment_check(wrap_agent(n, v)) is None,
{
    let inner: Entries = seq![(n, v)];
    let outer: Entries = seq![("agent"@, Json::Object(inner))];
    assert(outer[0].0 == "agent"@);
    assert(has_key(outer, "agent"@));
    assert(entries_get(outer, "agent"@) == Some(Json::Object(inner)));
}

proof fn lemma_agent_fragments_ok(acc: Entries, global: Seq<char>, agents: Entries)
    requires
        keys_sorted(acc),
        all_fragments_ok(acc),
        agent_fragments(acc, global, agents) is Ok,
    ensures
        keys_sorted(agent_fragments(acc, global, agents)->Ok_0),
        all_fragments_ok(agent_fragments(acc, global, agents)->Ok_0),
    decreases agents.len(),
{
    if agents.len() > 0 {
        lemma_agent_fragments_ok(acc, global, agents.drop_last());
        let f = agent_fragments(acc, global, agents.drop_last())->Ok_0;
        let n = agents.last().0;
        let v = agents.last().1;
        lemma_wrap_ok(n, v);
        lemma_put_ok(f, fragment_name(n), wrap_agent(n, v));
    }
}

/// The fragments a decomposition gives pass validation: the global
/// fragment has no `agent` member, and each agent fragment holds exactly
/// one agent, with a usable name and an object value.
pub proof fn law_decompose_validates(name: Seq<char>, v: Json)
    requires
        v.wf(),
        decompose_spec(name, v) is Ok,
    ensures
        fragments_check(decompose_spec(name, v)->Ok_0) is None,
{
    let obj = v->Object_0;
    lemma_wf_members(v);
    let global = fragment_name(name);
    let rest = entries_remove(obj, "agent"@);
    crate::keyed::lemma_remove_sorted(obj, "agent"@);
    assert(entries_get(rest, "agent"@) is None);
    let empty: Entries = Seq::empty();
    assert(all_fragments_ok(empty));
    lemma_put_ok(empty, global, Json::Object(rest));
    let first = entries_put(empty, global, Json::Object(rest));
    match entries_get(obj, "agent"@) {
        None => {},
        Some(Json::Object(agents)) => {
            lemma_agent_fragments_ok(first, global, agents);
        },
        Some(_) => {},
    }
    lemma_check_all(decompose_spec(name, v)->Ok_0);
}


// ---------------------------------------------------------------------------
// Merging the fragments back
// ---------------------------------------------------------------------------

/// Merging values in order is merging them as optional values.
proof fn lemma_merge_all_opt(first: Json, rest: Seq<Json>)
    ensures
        Some(merge_all(first, rest)) == merge_opt(Some(first), Seq::new(rest.len(), |i: int| Some(rest[i]))),
    decreases rest.len(),
{
    if rest.len() > 0 {
        let d = rest.drop_last();
        lemma_merge_all_opt(first, d);
        let t = Seq::new(rest.len(), |i: int| Some(rest[i]));
        assert(t.drop_last() =~= Seq::new(d.len(), |i: int| Some(d[i])));
    }
}

proof fn lemma_fragment_name_injective(a: Seq<char>, b: Seq<char>)
    requires
        fragment_name(a) == fragment_name(b),
    ensures
        a == b,
{
    assert(fragment_name(a).len() == a.len() + ".json"@.len());
    assert(fragment_name(b).len() == b.len() + ".json"@.len());
    assert(a.len() == b.len());
    assert(a =~= fragment_name(a).subrange(0, a.len() as int));
    assert(b =~= fragment_name(b).subrange(0, b.len() as int));
}

/// The fragment of agent `j`, with its file name.
pub open spec fn agent_entry(agents: Entries, j: int) -> (Seq<char>, Json) {
    (fragment_name(agents[j].0), wrap_agent(agents[j].0, agents[j].1))
}

/// What the agent fragments added to `acc` are: every fragment is one of
/// `acc` or that of an agent, every agent has its fragment, and no agent's
/// file name is the global one.
proof fn lemma_agent_fragments_contents(acc: Entries, global: Seq<char>, agents: Entries)
    requires
        keys_sorted(acc),
        keys_sorted(agents),
        agent_fragments(acc, global, agents) is Ok,
    ensures
        ({
            let f = agent_fragments(acc, global, agents)->Ok_0;
            &&& keys_sorted(f)
            &&& forall|j: int| 0 <= j < agents.len() ==> fragment_name(#[trigger] agents[j].0) != global
            &&& forall|i: int| 0 <= i < f.len() ==> has_entry(acc, #[trigger] f[i]) || exists|j: int|
                0 <= j < agents.len() && f[i] == #[trigger] agent_entry(agents, j)
            &&& forall|j: int| 0 <= j < agents.len() ==> entries_get(f, fragment_name(agents[j].0)) == Some(
                #[trigger] agent_entry(agents, j).1,
            )
            &&& forall|m: Seq<char>| (forall|j: int| 0 <= j < agents.len() ==> fragment_name(#[trigger] agents[j].0) != m)
                ==> #[trigger] entries_get(f, m) == entries_get(acc, m)
        }),
    decreases agents.len(),
{
    if agents.len() > 0 {
        let d = agents.drop_last();
        assert(keys_sorted(d));
        lemma_agent_fragments_contents(acc, global, d);
        let prev = agent_fragments(acc, global, d)->Ok_0;
        let last = agents.len() - 1;
        let n = agents[last].0;
        let v = agents[last].1;
        assert(agents.last() == agents[last]);
        let k = fragment_name(n);
        let w = wrap_agent(n, v);
        lemma_put_sorted(prev, k, w);
        let f = agent_fragments(acc, global, agents)->Ok_0;
        assert(f == entries_put(prev, k, w));
        assert forall|j: int| 0 <= j < agents.len() implies fragment_name(#[trigger] agents[j].0) != global by {
            if j < last {
                assert(d[j] == agents[j]);
            }
        }
        assert forall|i: int| 0 <= i < f.len() implies has_entry(acc, #[trigger] f[i]) || exists|j: int|
            0 <= j < agents.len() && f[i] == #[trigger] agent_entry(agents, j) by {
            if f[i] == (k, w) {
                assert(f[i] == agent_entry(agents, last));
            } else {
                assert(has_entry(prev, f[i]));
                let x = choose|x: int| 0 <= x < prev.len() && prev[x] == f[i];
                if !has_entry(acc, prev[x]) {
                    let j = choose|j: int| 0 <= j < d.len() && prev[x] == #[trigger] agent_entry(d, j);
                    assert(d[j] == agents[j]);
                    assert(agent_entry(d, j) == agent_entry(agents, j));
                }
            }
        }
        assert forall|j: int| 0 <= j < agents.len() implies entries_get(f, fragment_name(agents[j].0)) == Some(
            #[trigger] agent_entry(agents, j).1,
        ) by {
            if j < last {
                assert(d[j] == agents[j]);
                assert(agent_entry(d, j) == agent_entry(agents, j));
                if fragment_name(agents[j].0) == k {
                    lemma_fragment_name_injective(agents[j].0, n);
                    lemma_sorted_unique(agents, j, last);
                }
            }
        }
        assert forall|m: Seq<char>| (forall|j: int| 0 <= j < agents.len() ==> fragment_name(#[trigger] agents[j].0) != m)
            implies #[trigger] entries_get(f, m) == entries_get(acc, m) by {
            assert(fragment_name(agents[last].0) != m);
            assert forall|j: int| 0 <= j < d.len() implies fragment_name(#[trigger] d[j].0) != m by {
                assert(d[j] == agents[j]);
            }
        }
    }
}

proof fn lemma_agents_objects(acc: Entries, global: Seq<char>, agents: Entries, j: int)
    requires
        agent_fragments(acc, global, agents) is Ok,
        0 <= j < agents.len(),
    ensures
        agents[j].1 is Object,
    decreases agents.len(),
{
    let d = agents.drop_last();
    if j < agents.len() - 1 {
        lemma_agents_objects(acc, global, d, j);
        assert(d[j] == agents[j]);
    } else {
        assert(agents.last() == agents[j]);
    }
}

/// The `agent` members of the fragments merge to the agents.
proof fn lemma_agent_member(
    f: Entries,
    global: Seq<char>,
    gv: Json,
    agents: Entries,
    t: Seq<Option<Json>>,
)
    requires
        keys_sorted(f),
        keys_sorted(agents),
        agents.len() > 0,
        gv.get("agent"@) is None,
        forall|j: int| 0 <= j < agents.len() ==> (#[trigger] agents[j]).1.wf() && agents[j].1 is Object,
        forall|j: int| 0 <= j < agents.len() ==> entries_get(f, fragment_name(agents[j].0)) == Some(
            #[trigger] agent_entry(agents, j).1,
        ),
        forall|i: int| 0 <= i < f.len() ==> (#[trigger] f[i]) == (global, gv) || exists|j: int|
            0 <= j < agents.len() && f[i] == #[trigger] agent_entry(agents, j),
        t == Seq::new(f.len(), |i: int| opt_get(Some(f[i].1), "agent"@)),
    ensures
        merge_opt(None, t) == Some(Json::Object(agents)),
{
    assert forall|i: int| 0 <= i < t.len() implies opt_object_wf(#[trigger] t[i]) by {
        if f[i] != (global, gv) {
            let j = choose|j: int| 0 <= j < agents.len() && f[i] == #[trigger] agent_entry(agents, j);
            let inner: Entries = seq![(agents[j].0, agents[j].1)];
            assert(keys_sorted(inner));
            assert(agents[j].1.wf());
            lemma_wf_intro(Json::Object(inner));
            lemma_key_index(seq![("agent"@, Json::Object(inner))], "agent"@, 0);
        }
    }
    lemma_merge_opt_members(None, t);
    let r = merge_opt(None, t);
    assert forall|n: Seq<char>| #[trigger] opt_get(r, n) == entries_get(agents, n) by {
        let u = Seq::new(t.len(), |i: int| opt_get(t[i], n));
        assert(opt_get(r, n) == merge_opt(None, u));
        if has_key(agents, n) {
            let jn = key_index(agents, n);
            lemma_key_index_found(agents, n);
            lemma_key_index(agents, n, jn);
            assert(entries_get(f, fragment_name(agents[jn].0)) == Some(agent_entry(agents, jn).1));
            let fi = key_index(f, fragment_name(n));
            lemma_key_index_found(f, fragment_name(n));
            assert forall|i: int| 0 <= i < u.len() && i != fi implies (#[trigger] u[i]) is None by {
                if f[i] != (global, gv) {
                    let j = choose|j: int| 0 <= j < agents.len() && f[i] == #[trigger] agent_entry(agents, j);
                    let inner: Entries = seq![(agents[j].0, agents[j].1)];
                    lemma_key_index(seq![("agent"@, Json::Object(inner))], "agent"@, 0);
                    if agents[j].0 == n {
                        lemma_sorted_unique(f, i, fi);
                    } else if has_key(inner, n) {
                        let x = key_index(inner, n);
                        lemma_key_index_found(inner, n);
                    }
                }
            }
            let inner: Entries = seq![(n, agents[jn].1)];
            lemma_key_index(seq![("agent"@, Json::Object(inner))], "agent"@, 0);
            lemma_key_index(inner, n, 0);
            lemma_merge_opt_single(u, fi);
        } else {
            assert forall|i: int| 0 <= i < u.len() && i != 0 implies (#[trigger] u[i]) is None by {
                if f[i] != (global, gv) {
                    let j = choose|j: int| 0 <= j < agents.len() && f[i] == #[trigger] agent_entry(agents, j);
                    let inner: Entries = seq![(agents[j].0, agents[j].1)];
                    lemma_key_index(seq![("agent"@, Json::Object(inner))], "agent"@, 0);
                    if has_key(inner, n) {
                        lemma_key_index_found(inner, n);
                    }
                }
            }
            assert(f.len() > 0) by {
                assert(entries_get(f, fragment_name(agents[0].0)) == Some(agent_entry(agents, 0).1));
            }
            assert(u[0] is None) by {
                if f[0] != (global, gv) {
                    let j = choose|j: int| 0 <= j < agents.len() && f[0] == #[trigger] agent_entry(agents, j);
                    let inner: Entries = seq![(agents[j].0, agents[j].1)];
                    lemma_key_index(seq![("agent"@, Json::Object(inner))], "agent"@, 0);
                    if has_key(inner, n) {
                        lemma_key_index_found(inner, n);
                    }
                }
            }
            lemma_merge_opt_single(u, 0);
        }
    }
    let n0 = agents[0].0;
    lemma_key_index(agents, n0, 0);
    assert(opt_get(r, n0) is Some);
    let ra = r->Some_0->Object_0;
    lemma_wf_members(r->Some_0);
    assert forall|n: Seq<char>| #[trigger] entries_get(ra, n) == entries_get(agents, n) by {
        assert(opt_get(r, n) == entries_get(agents, n));
    }
    lemma_entries_ext(ra, agents);
}

/// Merging the fragments of a decomposition in file-name order, starting
/// from the empty object, gives the value back, for a value whose `agent`
/// member, when present, is not empty.
pub proof fn law_decompose_merges_back(name: Seq<char>, v: Json)
    requires
        v.wf(),
        decompose_spec(name, v) is Ok,
        v.get("agent"@) matches Some(Json::Object(a)) ==> a.len() > 0,
    ensures
        ({
            let f = decompose_spec(name, v)->Ok_0;
            merge_all(empty_object(), Seq::new(f.len(), |i: int| f[i].1)) == v
        }),
{
    let obj = v->Object_0;
    lemma_wf_members(v);
    let global = fragment_name(name);
    let gv = Json::Object(entries_remove(obj, "agent"@));
    lemma_remove_sorted(obj, "agent"@);
    let ge = entries_remove(obj, "agent"@);
    assert forall|i: int| 0 <= i < ge.len() implies #[trigger] ge[i].1.wf() by {
        assert(has_entry(obj, ge[i]));
        let x = choose|x: int| 0 <= x < obj.len() && obj[x] == ge[i];
        assert(obj[x].1.wf());
    }
    lemma_wf_intro(gv);
    let empty: Entries = Seq::empty();
    let first = entries_put(empty, global, gv);
    lemma_put_sorted(empty, global, gv);
    let f = decompose_spec(name, v)->Ok_0;
    let agents: Entries = match entries_get(obj, "agent"@) {
        Some(Json::Object(a)) => a,
        _ => Seq::empty(),
    };
    // every fragment of `f` is the global one or that of an agent
    if let Some(Json::Object(a)) = entries_get(obj, "agent"@) {
        let ai = key_index(obj, "agent"@);
        lemma_key_index_found(obj, "agent"@);
        assert(obj[ai].1.wf());
        lemma_wf_members(obj[ai].1);
        lemma_agent_fragments_contents(first, global, a);
    } else {
        assert(f == first);
        assert forall|m: Seq<char>| (forall|j: int| 0 <= j < agents.len() ==> fragment_name(#[trigger] agents[j].0) != m)
            implies #[trigger] entries_get(f, m) == entries_get(first, m) by {}
    }
    assert(keys_sorted(f));
    assert(keys_sorted(agents));
    assert forall|j: int| 0 <= j < agents.len() implies (#[trigger] agents[j]).1.wf() && agents[j].1 is Object by {
        let ai = key_index(obj, "agent"@);
        lemma_key_index_found(obj, "agent"@);
        lemma_wf_members(obj[ai].1);
        assert(decompose_spec(name, v) is Ok);
        lemma_agents_objects(first, global, agents, j);
    }
    assert(forall|i: int| 0 <= i < f.len() ==> has_entry(first, #[trigger] f[i]) || exists|j: int|
        0 <= j < agents.len() && f[i] == #[trigger] agent_entry(agents, j));
    // the fragments' values, and what each is
    let vals = Seq::new(f.len(), |i: int| f[i].1);
    assert forall|i: int| 0 <= i < f.len() implies (#[trigger] f[i]) == (global, gv) || exists|j: int|
        0 <= j < agents.len() && f[i] == #[trigger] agent_entry(agents, j) by {
        if has_entry(first, f[i]) {
            let x = choose|x: int| 0 <= x < first.len() && first[x] == f[i];
            assert(first[x] == (global, gv) || has_entry(empty, first[x]));
        }
    }
    let s = Seq::new(f.len(), |i: int| Some(vals[i]));
    assert forall|i: int| 0 <= i < s.len() implies opt_object_wf(#[trigger] s[i]) by {
        if f[i] != (global, gv) {
            let j = choose|j: int| 0 <= j < agents.len() && f[i] == #[trigger] agent_entry(agents, j);
            let inner: Entries = seq![(agents[j].0, agents[j].1)];
            assert(keys_sorted(inner));
            lemma_wf_intro(Json::Object(inner));
            let outer: Entries = seq![("agent"@, Json::Object(inner))];
            assert(keys_sorted(outer));
            lemma_wf_intro(Json::Object(outer));
        }
    }
    lemma_merge_all_opt(empty_object(), vals);
    assert(Seq::new(vals.len(), |i: int| Some(vals[i])) =~= s);
    lemma_merge_opt_members(Some(empty_object()), s);
    let r = merge_all(empty_object(), vals);
    let re = r->Object_0;
    assert forall|m: Seq<char>| #[trigger] entries_get(re, m) == entries_get(obj, m) by {
        let t = Seq::new(s.len(), |i: int| opt_get(s[i], m));
        assert(opt_get(Some(r), m) == merge_opt(None, t));
        lemma_put_sorted(empty, global, gv);
        let gi = key_index(f, global);
        assert(entries_get(f, global) == Some(gv)) by {
            assert(entries_get(first, global) == Some(gv));
        }
        lemma_key_index_found(f, global);
        if m != "agent"@ || agents.len() == 0 {
            assert forall|i: int| 0 <= i < t.len() && i != gi implies (#[trigger] t[i]) is None by {
                if f[i] == (global, gv) {
                    lemma_sorted_unique(f, i, gi);
                } else {
                    let j = choose|j: int| 0 <= j < agents.len() && f[i] == #[trigger] agent_entry(agents, j);
                    assert(wrap_agent(agents[j].0, agents[j].1).get(m) is None);
                }
            }
            lemma_merge_opt_single(t, gi);
            lemma_key_index(f, global, gi);
        } else {
            assert(t =~= Seq::new(f.len(), |i: int| opt_get(Some(f[i].1), "agent"@)));
            lemma_agent_member(f, global, gv, agents, t);
            assert(entries_get(obj, "agent"@) == Some(Json::Object(agents)));
        }
    }
    lemma_entries_ext(re, obj);
}

} // verus!
