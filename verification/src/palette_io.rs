//! Import of palettes into the model configurations: the name to import
//! under, the conflicts with an existing palette of that name, the merge
//! strategies and whether the result is written.

use vstd::prelude::*;
use crate::config::{
    AgentModel, ConfigError, ModelConfigs, Palette, PaletteModel, configs_wf, palette_wf,
};
use crate::json::{Json, Entries, json_eq, lemma_wf_members};
use crate::keyed::{entries_get, entries_put, has_key, keys_sorted, lemma_put_sorted};
use crate::strings::{concat, file_stem, stem_of, to_owned_string};
use crate::template::last_component;

verus! {

/// Text format of an exported palette.
#[derive(Debug, Copy, Clone, Eq, PartialEq, Structural)]
pub enum PaletteFormat {
    Json,
    Yaml,
}

/// What to do with an existing palette of the imported name.
#[derive(Debug, Copy, Clone, Eq, PartialEq, Structural)]
pub enum MergeStrategy {
    /// Stop when the palettes conflict; otherwise merge.
    Abort,
    /// Replace the existing palette.
    Overwrite,
    /// Keep existing entries and add the new ones.
    Merge,
}

/// The outcome of an import.
#[derive(Debug, Copy, Clone, Eq, PartialEq, Structural)]
pub enum ImportStatus {
    Applied,
    DryRun,
    NeedsForce,
    Aborted,
}

/// Why a palette could not be imported or exported.
#[derive(Debug)]
pub enum PaletteIoError {
    Config(ConfigError),
    MissingPalette { name: String },
    MissingImportName { path: String },
    Read { path: String, source: std::io::Error },
    Parse { path: String, source: serde_json::Error },
    ParseYaml { path: String, source: serde_yaml::Error },
    UnsupportedExtension { path: String, extension: String },
    SerializeJson { source: serde_json::Error },
    SerializeYaml { source: serde_yaml::Error },
    Write { path: String, source: std::io::Error },
}

/// Settings of an export.
pub struct ExportOptions {
    pub name: String,
    pub format: PaletteFormat,
    pub config_dir: String,
}

/// An exported palette: its text and number of lines.
pub struct ExportOutput {
    pub data: String,
    pub lines: usize,
}

/// Settings of an import.
pub struct ImportOptions {
    pub from: String,
    pub name: Option<String>,
    pub merge: MergeStrategy,
    pub dry_run: bool,
    pub force: bool,
    pub config_dir: String,
}

/// What an import did or would do.
pub struct ImportReport {
    pub palette_name: String,
    pub created: bool,
    pub status: ImportStatus,
    pub conflicts: Vec<String>,
}

// ---------------------------------------------------------------------------
// Specification
// ---------------------------------------------------------------------------

/// `agent.<name>` for each incoming agent that exists with other settings,
/// in name order.
pub open spec fn agent_conflicts(existing: Seq<(Seq<char>, AgentModel)>, incoming: Seq<(Seq<char>, AgentModel)>) -> Seq<Seq<char>>
    decreases incoming.len(),
{
    if incoming.len() == 0 {
        Seq::empty()
    } else {
        let (n, a) = incoming.last();
        agent_conflicts(existing, incoming.drop_last()) + if has_key(existing, n) && entries_get(existing, n)
            != Some(a) {
            seq!["agent."@ + n]
        } else {
            Seq::empty()
        }
    }
}

/// `mapping.<key>` for each incoming mapping entry that exists with another
/// value, in key order.
pub open spec fn mapping_conflicts(existing: Entries, incoming: Entries) -> Seq<Seq<char>>
    decreases incoming.len(),
{
    if incoming.len() == 0 {
        Seq::empty()
    } else {
        let (k, v) = incoming.last();
        mapping_conflicts(existing, incoming.drop_last()) + if has_key(existing, k) && entries_get(existing, k)
            != Some(v) {
            seq!["mapping."@ + k]
        } else {
            Seq::empty()
        }
    }
}

/// The conflicts between an existing and an incoming palette, sorted.
pub open spec fn conflicts_spec(existing: PaletteModel, incoming: PaletteModel) -> Seq<Seq<char>> {
    agent_conflicts(existing.agents, incoming.agents) + mapping_conflicts(existing.mapping, incoming.mapping)
}

proof fn lemma_concat_contains<T>(a: Seq<T>, b: Seq<T>, x: T)
    ensures
        (a + b).contains(x) <==> a.contains(x) || b.contains(x),
{
    if (a + b).contains(x) {
        let i = choose|i: int| 0 <= i < (a + b).len() && (a + b)[i] == x;
        if i < a.len() {
            assert(a[i] == x);
        } else {
            assert(b[i - a.len()] == x);
        }
    }
    if a.contains(x) {
        let i = choose|i: int| 0 <= i < a.len() && a[i] == x;
        assert((a + b)[i] == x);
    }
    if b.contains(x) {
        let i = choose|i: int| 0 <= i < b.len() && b[i] == x;
        assert((a + b)[a.len() + i] == x);
    }
}

/// The agent conflicts are the incoming agents that exist with another
/// configuration.
proof fn lemma_agent_conflicts_mem(ea: Seq<(Seq<char>, AgentModel)>, ia: Seq<(Seq<char>, AgentModel)>, x: Seq<char>)
    ensures
        agent_conflicts(ea, ia).contains(x) <==> exists|i: int|
            0 <= i < ia.len() && x == "agent."@ + (#[trigger] ia[i]).0 && has_key(ea, ia[i].0) && entries_get(ea, ia[i].0)
                != Some(ia[i].1),
    decreases ia.len(),
{
    if ia.len() > 0 {
        let d = ia.drop_last();
        lemma_agent_conflicts_mem(ea, d, x);
        let (n, a) = ia.last();
        let extra = if has_key(ea, n) && entries_get(ea, n) != Some(a) {
            seq!["agent."@ + n]
        } else {
            Seq::<Seq<char>>::empty()
        };
        lemma_concat_contains(agent_conflicts(ea, d), extra, x);
        if agent_conflicts(ea, ia).contains(x) {
            if extra.contains(x) {
                assert(extra[0] == x);
                assert(ia[ia.len() - 1] == ia.last());
            } else {
                let i = choose|i: int|
                    0 <= i < d.len() && x == "agent."@ + (#[trigger] d[i]).0 && has_key(ea, d[i].0) && entries_get(ea, d[i].0)
                        != Some(d[i].1);
                assert(d[i] == ia[i]);
            }
        }
        if exists|i: int|
            0 <= i < ia.len() && x == "agent."@ + (#[trigger] ia[i]).0 && has_key(ea, ia[i].0) && entries_get(ea, ia[i].0)
                != Some(ia[i].1) {
            let i = choose|i: int|
                0 <= i < ia.len() && x == "agent."@ + (#[trigger] ia[i]).0 && has_key(ea, ia[i].0) && entries_get(ea, ia[i].0)
                    != Some(ia[i].1);
            if i == ia.len() - 1 {
                assert(ia[i] == ia.last());
                assert(extra[0] == x);
            } else {
                assert(d[i] == ia[i]);
            }
        }
    }
}

/// The mapping conflicts are the incoming mapping entries that exist with
/// another value.
proof fn lemma_mapping_conflicts_mem(em: Entries, im: Entries, x: Seq<char>)
    ensures
        mapping_conflicts(em, im).contains(x) <==> exists|i: int|
            0 <= i < im.len() && x == "mapping."@ + (#[trigger] im[i]).0 && has_key(em, im[i].0) && entries_get(em, im[i].0)
                != Some(im[i].1),
    decreases im.len(),
{
    if im.len() > 0 {
        let d = im.drop_last();
        lemma_mapping_conflicts_mem(em, d, x);
        let (n, a) = im.last();
        let extra = if has_key(em, n) && entries_get(em, n) != Some(a) {
            seq!["mapping."@ + n]
        } else {
            Seq::<Seq<char>>::empty()
        };
        lemma_concat_contains(mapping_conflicts(em, d), extra, x);
        if mapping_conflicts(em, im).contains(x) {
            if extra.contains(x) {
                assert(extra[0] == x);
                assert(im[im.len() - 1] == im.last());
            } else {
                let i = choose|i: int|
                    0 <= i < d.len() && x == "mapping."@ + (#[trigger] d[i]).0 && has_key(em, d[i].0) && entries_get(em, d[i].0)
                        != Some(d[i].1);
                assert(d[i] == im[i]);
            }
        }
        if exists|i: int|
            0 <= i < im.len() && x == "mapping."@ + (#[trigger] im[i]).0 && has_key(em, im[i].0) && entries_get(em, im[i].0)
                != Some(im[i].1) {
            let i = choose|i: int|
                0 <= i < im.len() && x == "mapping."@ + (#[trigger] im[i]).0 && has_key(em, im[i].0) && entries_get(em, im[i].0)
                    != Some(im[i].1);
            if i == im.len() - 1 {
                assert(im[i] == im.last());
                assert(extra[0] == x);
            } else {
                assert(d[i] == im[i]);
            }
        }
    }
}

/// An agent both palettes have, with different configurations.
pub open spec fn agent_disagrees(existing: PaletteModel, incoming: PaletteModel, n: Seq<char>) -> bool {
    has_key(existing.agents, n) && has_key(incoming.agents, n) && entries_get(existing.agents, n) != entries_get(
        incoming.agents,
        n,
    )
}

/// A mapping key both palettes have, with different values.
pub open spec fn mapping_disagrees(existing: PaletteModel, incoming: PaletteModel, k: Seq<char>) -> bool {
    has_key(existing.mapping, k) && has_key(incoming.mapping, k) && entries_get(existing.mapping, k) != entries_get(
        incoming.mapping,
        k,
    )
}

/// The conflicts of an import are exactly the shared agents whose
/// configurations differ, as `agent.<name>`, and the shared mapping keys
/// whose values differ, as `mapping.<key>`.
pub proof fn law_conflicts_are_disagreements(existing: PaletteModel, incoming: PaletteModel, x: Seq<char>)
    requires
        keys_sorted(incoming.agents),
        keys_sorted(incoming.mapping),
    ensures
        conflicts_spec(existing, incoming).contains(x) <==> (exists|n: Seq<char>|
            #![trigger agent_disagrees(existing, incoming, n)]
            x == "agent."@ + n && agent_disagrees(existing, incoming, n)) || (exists|k: Seq<char>|
            #![trigger mapping_disagrees(existing, incoming, k)]
            x == "mapping."@ + k && mapping_disagrees(existing, incoming, k)),
{
    let ea = existing.agents;
    let ia = incoming.agents;
    let em = existing.mapping;
    let im = incoming.mapping;
    lemma_concat_contains(agent_conflicts(ea, ia), mapping_conflicts(em, im), x);
    lemma_agent_conflicts_mem(ea, ia, x);
    lemma_mapping_conflicts_mem(em, im, x);
    if agent_conflicts(ea, ia).contains(x) {
        let i = choose|i: int|
            0 <= i < ia.len() && x == "agent."@ + (#[trigger] ia[i]).0 && has_key(ea, ia[i].0) && entries_get(ea, ia[i].0)
                != Some(ia[i].1);
        crate::keyed::lemma_key_index(ia, ia[i].0, i);
        assert(agent_disagrees(existing, incoming, ia[i].0));
    }
    if mapping_conflicts(em, im).contains(x) {
        let i = choose|i: int|
            0 <= i < im.len() && x == "mapping."@ + (#[trigger] im[i]).0 && has_key(em, im[i].0) && entries_get(em, im[i].0)
                != Some(im[i].1);
        crate::keyed::lemma_key_index(im, im[i].0, i);
        assert(mapping_disagrees(existing, incoming, im[i].0));
    }
    if exists|n: Seq<char>| #![trigger agent_disagrees(existing, incoming, n)] x == "agent."@ + n && agent_disagrees(existing, incoming, n) {
        let n = choose|n: Seq<char>| #![trigger agent_disagrees(existing, incoming, n)] x == "agent."@ + n && agent_disagrees(existing, incoming, n);
        let i = crate::keyed::key_index(ia, n);
        crate::keyed::lemma_key_index_found(ia, n);
        crate::keyed::lemma_key_index(ia, n, i);
        assert(x == "agent."@ + ia[i].0);
    }
    if exists|k: Seq<char>| #![trigger mapping_disagrees(existing, incoming, k)] x == "mapping."@ + k && mapping_disagrees(existing, incoming, k) {
        let k = choose|k: Seq<char>| #![trigger mapping_disagrees(existing, incoming, k)] x == "mapping."@ + k && mapping_disagrees(existing, incoming, k);
        let i = crate::keyed::key_index(im, k);
        crate::keyed::lemma_key_index_found(im, k);
        crate::keyed::lemma_key_index(im, k, i);
        assert(x == "mapping."@ + im[i].0);
    }
}

/// An import has no conflicts exactly when every agent and every mapping
/// key the two palettes share agree.
pub proof fn law_no_conflicts_iff_agreement(existing: PaletteModel, incoming: PaletteModel)
    requires
        keys_sorted(incoming.agents),
        keys_sorted(incoming.mapping),
    ensures
        conflicts_spec(existing, incoming).len() == 0 <==> (forall|n: Seq<char>| !#[trigger] agent_disagrees(existing, incoming, n))
            && (forall|k: Seq<char>| !#[trigger] mapping_disagrees(existing, incoming, k)),
{
    let c = conflicts_spec(existing, incoming);
    if c.len() > 0 {
        law_conflicts_are_disagreements(existing, incoming, c[0]);
        assert(c.contains(c[0]));
    }
    assert forall|n: Seq<char>| c.len() == 0 implies !#[trigger] agent_disagrees(existing, incoming, n) by {
        law_conflicts_are_disagreements(existing, incoming, "agent."@ + n);
    }
    assert forall|k: Seq<char>| c.len() == 0 implies !#[trigger] mapping_disagrees(existing, incoming, k) by {
        law_conflicts_are_disagreements(existing, incoming, "mapping."@ + k);
    }
}

/// `acc` with the entries of `inc` whose keys it lacks.
pub open spec fn put_missing<V>(acc: Seq<(Seq<char>, V)>, inc: Seq<(Seq<char>, V)>) -> Seq<(Seq<char>, V)>
    decreases inc.len(),
{
    if inc.len() == 0 {
        acc
    } else {
        let p = put_missing(acc, inc.drop_last());
        if has_key(p, inc.last().0) {
            p
        } else {
            entries_put(p, inc.last().0, inc.last().1)
        }
    }
}

/// The existing palette with the incoming agents and entries it lacks.
pub open spec fn merge_palette_spec(existing: PaletteModel, incoming: PaletteModel) -> PaletteModel {
    PaletteModel {
        agents: put_missing(existing.agents, incoming.agents),
        mapping: put_missing(existing.mapping, incoming.mapping),
    }
}

/// The model of an import plan.
pub struct PlanModel {
    pub created: bool,
    pub conflicts: Seq<Seq<char>>,
    pub merged: PaletteModel,
    pub changed: bool,
    pub status: ImportStatus,
}

/// The plan of an import: abort on conflicts with `Abort`; otherwise
/// overwrite or merge; apply only when not a dry run and either forced or
/// nothing changes.
pub open spec fn plan_spec(
    merge: MergeStrategy,
    dry_run: bool,
    force: bool,
    existing: Option<PaletteModel>,
    incoming: PaletteModel,
) -> PlanModel {
    let conflicts = match existing {
        Some(e) => conflicts_spec(e, incoming),
        None => Seq::empty(),
    };
    let created = existing is None;
    if merge == MergeStrategy::Abort && !created && conflicts.len() > 0 {
        PlanModel { created, conflicts, merged: incoming, changed: false, status: ImportStatus::Aborted }
    } else {
        let merged = match existing {
            None => incoming,
            Some(e) => if merge == MergeStrategy::Overwrite {
                incoming
            } else {
                merge_palette_spec(e, incoming)
            },
        };
        let changed = match existing {
            Some(e) => e != merged,
            None => true,
        };
        let status = if dry_run {
            ImportStatus::DryRun
        } else if !force {
            if changed {
                ImportStatus::NeedsForce
            } else {
                ImportStatus::Applied
            }
        } else {
            ImportStatus::Applied
        };
        PlanModel { created, conflicts, merged, changed, status }
    }
}

/// An import into an existing palette with `abort` is aborted exactly when
/// the palettes disagree on a shared agent or a shared mapping key; an
/// import never aborts otherwise.
pub proof fn law_abort_iff_disagreement(
    merge: MergeStrategy,
    dry_run: bool,
    force: bool,
    existing: Option<PaletteModel>,
    incoming: PaletteModel,
)
    requires
        keys_sorted(incoming.agents),
        keys_sorted(incoming.mapping),
    ensures
        plan_spec(merge, dry_run, force, existing, incoming).status == ImportStatus::Aborted <==> (merge
            == MergeStrategy::Abort && match existing {
            Some(e) => (exists|n: Seq<char>| #[trigger] agent_disagrees(e, incoming, n)) || (exists|k: Seq<char>|
                #[trigger] mapping_disagrees(e, incoming, k)),
            None => false,
        }),
{
    if let Some(e) = existing {
        law_no_conflicts_iff_agreement(e, incoming);
    }
}

// ---------------------------------------------------------------------------
// Laws
// ---------------------------------------------------------------------------

proof fn lemma_put_missing<V>(acc: Seq<(Seq<char>, V)>, inc: Seq<(Seq<char>, V)>)
    requires
        keys_sorted(acc),
    ensures
        keys_sorted(put_missing(acc, inc)),
        forall|k: Seq<char>| #[trigger] entries_get(put_missing(acc, inc), k) == if has_key(acc, k) {
            entries_get(acc, k)
        } else {
            first_value(inc, k)
        },
    decreases inc.len(),
{
    if inc.len() > 0 {
        let d = inc.drop_last();
        lemma_put_missing(acc, d);
        let p = put_missing(acc, d);
        lemma_put_sorted(p, inc.last().0, inc.last().1);
        assert forall|k: Seq<char>| #[trigger] entries_get(put_missing(acc, inc), k) == if has_key(acc, k) {
            entries_get(acc, k)
        } else {
            first_value(inc, k)
        } by {
            assert(has_key(p, k) == (entries_get(p, k) is Some)) by {
                if has_key(p, k) {
                    crate::keyed::lemma_key_index_found(p, k);
                }
            }
            assert(has_key(acc, k) == (entries_get(acc, k) is Some));
        }
    }
}

/// The value of the first entry of `k` in `inc`.
pub open spec fn first_value<V>(inc: Seq<(Seq<char>, V)>, k: Seq<char>) -> Option<V>
    decreases inc.len(),
{
    if inc.len() == 0 {
        None
    } else {
        match first_value(inc.drop_last(), k) {
            Some(v) => Some(v),
            None => if inc.last().0 == k {
                Some(inc.last().1)
            } else {
                None
            },
        }
    }
}

/// Merging keeps every existing agent and mapping entry as it was, and adds
/// the incoming ones the existing palette lacks.
pub proof fn law_merge_keeps_existing(existing: PaletteModel, incoming: PaletteModel, k: Seq<char>)
    requires
        palette_wf(existing),
    ensures
        has_key(existing.agents, k) ==> entries_get(merge_palette_spec(existing, incoming).agents, k)
            == entries_get(existing.agents, k),
        !has_key(existing.agents, k) ==> entries_get(merge_palette_spec(existing, incoming).agents, k)
            == first_value(incoming.agents, k),
        has_key(existing.mapping, k) ==> entries_get(merge_palette_spec(existing, incoming).mapping, k)
            == entries_get(existing.mapping, k),
        !has_key(existing.mapping, k) ==> entries_get(merge_palette_spec(existing, incoming).mapping, k)
            == first_value(incoming.mapping, k),
{
    crate::json::lemma_wf_members(Json::Object(existing.mapping));
    lemma_put_missing(existing.agents, incoming.agents);
    lemma_put_missing(existing.mapping, incoming.mapping);
}

/// An import with `Abort` into an existing palette that conflicts is
/// aborted and writes nothing; a dry run never writes.
pub proof fn law_abort_and_dry_run_write_nothing(
    merge: MergeStrategy,
    dry_run: bool,
    force: bool,
    existing: Option<PaletteModel>,
    incoming: PaletteModel,
)
    ensures
        (merge == MergeStrategy::Abort && existing is Some && conflicts_spec(existing->0, incoming).len() > 0)
            ==> plan_spec(merge, dry_run, force, existing, incoming).status == ImportStatus::Aborted,
        dry_run && plan_spec(merge, dry_run, force, existing, incoming).status != ImportStatus::Aborted
            ==> plan_spec(merge, dry_run, force, existing, incoming).status == ImportStatus::DryRun,
        plan_spec(merge, dry_run, force, existing, incoming).status == ImportStatus::Applied
            ==> !dry_run,
{
}

// ---------------------------------------------------------------------------
// Implementation
// ---------------------------------------------------------------------------

/// The model of an optional name.
pub open spec fn import_name_spec(name: Option<Seq<char>>, path: Seq<char>) -> Option<Seq<char>> {
    match name {
        Some(n) => Some(n),
        None => {
            let stem = file_stem(last_component(path));
            if stem.len() > 0 {
                Some(stem)
            } else {
                None
            }
        },
    }
}

/// The name to import under: the given name, else the stem of the file name.
pub fn resolve_import_name(name: Option<&String>, path: &str) -> (r: Result<String, PaletteIoError>)
    ensures
        match import_name_spec(
            match name {
                Some(n) => Some(n@),
                None => None,
            },
            path@,
        ) {
            Some(n) => r matches Ok(s) && s@ == n,
            None => r matches Err(PaletteIoError::MissingImportName { path: p }) && p@ == path@,
        },
{
    match name {
        Some(n) => Ok(n.clone()),
        None => {
            let file = crate::template::file_name_of(path);
            let stem = stem_of(file.as_str());
            if stem.as_str().is_empty() {
                Err(PaletteIoError::MissingImportName { path: to_owned_string(path) })
            } else {
                Ok(stem)
            }
        },
    }
}

/// The conflicts between an existing and an incoming palette.
pub fn palette_conflicts(existing: &Palette, incoming: &Palette) -> (r: Vec<String>)
    requires
        palette_wf(existing@),
    ensures
        r@.len() == conflicts_spec(existing@, incoming@).len(),
        forall|i: int| 0 <= i < r@.len() ==> #[trigger] r@[i]@ == conflicts_spec(existing@, incoming@)[i],
{
    let mut out: Vec<String> = Vec::new();
    let ghost ea = existing@.agents;
    let ghost ia = incoming@.agents;
    let mut i: usize = 0;
    proof {
        assert(ia.subrange(0, 0) =~= Seq::<(Seq<char>, AgentModel)>::empty());
    }
    while i < incoming.agents.entries.len()
        invariant
            i <= incoming.agents.entries.len(),
            ea == existing@.agents,
            ia == incoming@.agents,
            keys_sorted(ea),
            out@.len() == agent_conflicts(ea, ia.subrange(0, i as int)).len(),
            forall|j: int| 0 <= j < out@.len() ==> #[trigger] out@[j]@ == agent_conflicts(ea, ia.subrange(0, i as int))[j],
        decreases incoming.agents.entries.len() - i,
    {
        let name = &incoming.agents.entries[i].0;
        let agent = &incoming.agents.entries[i].1;
        let ghost prev = agent_conflicts(ea, ia.subrange(0, i as int));
        proof {
            let next = ia.subrange(0, i + 1);
            assert(next.drop_last() =~= ia.subrange(0, i as int));
            assert(next.last() == (name@, agent@));
        }
        let differs = match existing.agents.get(name.as_str()) {
            Some(e) => !e.same_as(agent),
            None => false,
        };
        if differs {
            out.push(concat("agent.", name.as_str()));
        }
        proof {
            let now = agent_conflicts(ea, ia.subrange(0, i + 1));
            if differs {
                assert(now =~= prev.push("agent."@ + name@));
            } else {
                assert(now =~= prev);
            }
        }
        i = i + 1;
    }
    proof {
        assert(ia.subrange(0, ia.len() as int) =~= ia);
    }
    let ghost ac = agent_conflicts(ea, ia);
    let ghost em = existing@.mapping;
    let ghost im = incoming@.mapping;
    proof {
        lemma_wf_members(Json::Object(em));
        assert(im.subrange(0, 0) =~= Seq::<(Seq<char>, Json)>::empty());
    }
    let mut j: usize = 0;
    while j < incoming.mapping.entries.len()
        invariant
            j <= incoming.mapping.entries.len(),
            em == existing@.mapping,
            im == incoming@.mapping,
            keys_sorted(em),
            out@.len() == ac.len() + mapping_conflicts(em, im.subrange(0, j as int)).len(),
            forall|x: int| 0 <= x < out@.len() ==> #[trigger] out@[x]@ == (ac + mapping_conflicts(em, im.subrange(0, j as int)))[x],
        decreases incoming.mapping.entries.len() - j,
    {
        let key = &incoming.mapping.entries[j].0;
        let value = &incoming.mapping.entries[j].1;
        let ghost prev = mapping_conflicts(em, im.subrange(0, j as int));
        proof {
            let next = im.subrange(0, j + 1);
            assert(next.drop_last() =~= im.subrange(0, j as int));
            assert(next.last() == (key@, value@));
        }
        let differs = match existing.mapping.get(key.as_str()) {
            Some(e) => !json_eq(e, value),
            None => false,
        };
        if differs {
            out.push(concat("mapping.", key.as_str()));
        }
        proof {
            let now = mapping_conflicts(em, im.subrange(0, j + 1));
            if differs {
                assert(now =~= prev.push("mapping."@ + key@));
                assert(ac + now =~= (ac + prev).push("mapping."@ + key@));
            } else {
                assert(now =~= prev);
            }
        }
        j = j + 1;
    }
    proof {
        assert(im.subrange(0, im.len() as int) =~= im);
    }
    out
}

/// The existing palette with the incoming agents and mapping entries it
/// lacks.
pub fn merge_palette(existing: &Palette, incoming: &Palette) -> (r: Palette)
    requires
        palette_wf(existing@),
    ensures
        r@ == merge_palette_spec(existing@, incoming@),
        keys_sorted(r@.agents),
        keys_sorted(r@.mapping),
{
    let mut merged = existing.copy();
    let ghost ia = incoming@.agents;
    let mut i: usize = 0;
    proof {
        assert(ia.subrange(0, 0) =~= Seq::<(Seq<char>, AgentModel)>::empty());
        lemma_wf_members(Json::Object(existing@.mapping));
    }
    while i < incoming.agents.entries.len()
        invariant
            i <= incoming.agents.entries.len(),
            ia == incoming@.agents,
            merged@.agents == put_missing(existing@.agents, ia.subrange(0, i as int)),
            merged@.mapping == existing@.mapping,
            keys_sorted(merged@.agents),
        decreases incoming.agents.entries.len() - i,
    {
        proof {
            let next = ia.subrange(0, i + 1);
            assert(next.drop_last() =~= ia.subrange(0, i as int));
        }
        let name = &incoming.agents.entries[i].0;
        if !merged.agents.contains_key(name.as_str()) {
            merged.agents.insert(name.clone(), incoming.agents.entries[i].1.copy());
        }
        i = i + 1;
    }
    proof {
        assert(ia.subrange(0, ia.len() as int) =~= ia);
    }
    let ghost im = incoming@.mapping;
    let mut j: usize = 0;
    proof {
        assert(im.subrange(0, 0) =~= Seq::<(Seq<char>, Json)>::empty());
    }
    while j < incoming.mapping.entries.len()
        invariant
            j <= incoming.mapping.entries.len(),
            im == incoming@.mapping,
            merged@.agents == put_missing(existing@.agents, ia),
            merged@.mapping == put_missing(existing@.mapping, im.subrange(0, j as int)),
            keys_sorted(merged@.mapping),
            keys_sorted(merged@.agents),
        decreases incoming.mapping.entries.len() - j,
    {
        proof {
            let next = im.subrange(0, j + 1);
            assert(next.drop_last() =~= im.subrange(0, j as int));
        }
        let key = &incoming.mapping.entries[j].0;
        if !merged.mapping.contains_key(key.as_str()) {
            merged.mapping.insert(key.clone(), incoming.mapping.entries[j].1.deep_clone());
        }
        j = j + 1;
    }
    proof {
        assert(im.subrange(0, im.len() as int) =~= im);
    }
    merged
}


/// The plan of an import.
pub struct ImportPlan {
    pub created: bool,
    pub conflicts: Vec<String>,
    pub merged: Palette,
    pub changed: bool,
    pub status: ImportStatus,
}

/// Texts as character sequences.
pub open spec fn texts(v: Seq<String>) -> Seq<Seq<char>> {
    Seq::new(v.len(), |i: int| v[i]@)
}

/// Plans an import of `incoming` over the palette `existing` of the same
/// name, if there is one.
pub fn plan_import(
    merge: MergeStrategy,
    dry_run: bool,
    force: bool,
    existing: Option<&Palette>,
    incoming: Palette,
) -> (r: ImportPlan)
    requires
        existing matches Some(e) ==> palette_wf(e@),
    ensures
        ({
            let p = plan_spec(
                merge,
                dry_run,
                force,
                match existing {
                    Some(e) => Some(e@),
                    None => None,
                },
                incoming@,
            );
            &&& r.created == p.created
            &&& texts(r.conflicts@) == p.conflicts
            &&& r.merged@ == p.merged
            &&& r.changed == p.changed
            &&& r.status == p.status
        }),
{
    let conflicts = match existing {
        Some(e) => palette_conflicts(e, &incoming),
        None => Vec::new(),
    };
    let ghost ev = match existing {
        Some(e) => Some(e@),
        None => None::<PaletteModel>,
    };
    proof {
        let c = match ev {
            Some(e) => conflicts_spec(e, incoming@),
            None => Seq::empty(),
        };
        assert(texts(conflicts@) =~= c);
    }
    let created = existing.is_none();
    if merge == MergeStrategy::Abort && !created && conflicts.len() > 0 {
        return ImportPlan { created, conflicts, merged: incoming, changed: false, status: ImportStatus::Aborted };
    }
    let merged = match existing {
        None => incoming,
        Some(e) => {
            if merge == MergeStrategy::Overwrite {
                incoming
            } else {
                merge_palette(e, &incoming)
            }
        },
    };
    let changed = match existing {
        Some(e) => !e.same_as(&merged),
        None => true,
    };
    let status = if dry_run {
        ImportStatus::DryRun
    } else if !force {
        if changed {
            ImportStatus::NeedsForce
        } else {
            ImportStatus::Applied
        }
    } else {
        ImportStatus::Applied
    };
    ImportPlan { created, conflicts, merged, changed, status }
}

/// Imports `incoming` into `configs` under the given name (or the stem of
/// the file it came from). Returns the report and, when the import is
/// applied and changes something, the configurations to write.
pub fn import_palette(options: &ImportOptions, incoming: Palette, configs: ModelConfigs) -> (r: Result<
    (ImportReport, Option<ModelConfigs>),
    PaletteIoError,
>)
    requires
        configs_wf(configs@),
    ensures
        match import_name_spec(
            match options.name {
                Some(n) => Some(n@),
                None => None,
            },
            options.from@,
        ) {
            None => r matches Err(PaletteIoError::MissingImportName { path }) && path@ == options.from@,
            Some(name) => r matches Ok((report, written)) && {
                let existing = entries_get(configs@, name);
                let p = plan_spec(options.merge, options.dry_run, options.force, existing, incoming@);
                &&& report.palette_name@ == name
                &&& report.created == p.created
                &&& report.status == p.status
                &&& texts(report.conflicts@) == p.conflicts
                &&& (p.status == ImportStatus::Applied && p.changed) == written is Some
                &&& written matches Some(c) ==> c@ == entries_put(configs@, name, p.merged)
            },
        },
{
    let name = resolve_import_name(options.name.as_ref(), options.from.as_str())?;
    let mut configs = configs;
    let existing = configs.palette(name.as_str());
    proof {
        if existing is Some {
            let j = crate::keyed::key_index(configs@, name@);
            crate::keyed::lemma_key_index_found(configs@, name@);
            assert(palette_wf(configs@[j].1));
        }
    }
    let plan = plan_import(options.merge, options.dry_run, options.force, existing, incoming);
    let written = if plan.status == ImportStatus::Applied && plan.changed {
        configs.palettes.insert(name.clone(), plan.merged);
        Some(configs)
    } else {
        None
    };
    Ok((ImportReport { palette_name: name, created: plan.created, status: plan.status, conflicts: plan.conflicts }, written))
}

/// The palette `name` of `configs`.
pub fn find_palette<'a>(configs: &'a ModelConfigs, name: &str) -> (r: Result<&'a Palette, PaletteIoError>)
    requires
        keys_sorted(configs@),
    ensures
        match entries_get(configs@, name@) {
            Some(p) => r matches Ok(q) && q@ == p,
            None => r matches Err(PaletteIoError::MissingPalette { name: n }) && n@ == name@,
        },
{
    match configs.palette(name) {
        Some(p) => Ok(p),
        None => Err(PaletteIoError::MissingPalette { name: to_owned_string(name) }),
    }
}

} // verus!
