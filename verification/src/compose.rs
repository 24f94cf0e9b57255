//! Composition of a fragment directory back into one template: fragments
//! named `<digits>-<agent>.<ext>` are wrapped under `agent.<agent>`, every
//! leaf value is traced to the fragments that set it, differing values at
//! one path are conflicts resolved by a strategy, and the fragments are
//! merged in file-name order with the resolved values set on top.

use vstd::prelude::*;
use crate::config::ConfigError;
use crate::json::{
    Json, Entries, JsonMap, JsonValue, empty_object, json_eq, lemma_object_view, lemma_wf_intro,
    lemma_wf_members, merge,
};
use crate::keyed::{KeyedMap, entries_get, entries_put, has_key, keys_sorted, lemma_put_sorted};
use crate::options::RunOptions;
use crate::strings::{chars_of, concat, concat3, ends_with, seq_ends_with, file_stem, stem_of, string_from_chars, to_owned_string};
use crate::template::{TemplateError, TemplateProbe, deep_merge, merge_all, fragment_dir, fragment_dir_path, is_valid_template_name, valid_template_name};

verus! {

/// How conflicts are resolved.
#[derive(Debug, Clone, Copy, PartialEq, Eq, Structural)]
pub enum Conflict {
    /// Fail on the first conflict.
    Error,
    /// The last fragment in file-name order wins.
    LastWins,
    /// Ask for each conflict; without a terminal, the last fragment wins.
    Interactive,
}

/// Settings of a composition.
pub struct ComposeOptions {
    pub input_dir: String,
    pub out: String,
    pub dry_run: bool,
    pub backup: bool,
    pub pretty: bool,
    pub verify: bool,
    pub force: bool,
    pub conflict: Conflict,
    pub run_options: RunOptions,
    pub config_dir: String,
}

/// Why a composition failed.
#[derive(Debug)]
pub enum ComposeError {
    Config(ConfigError),
    Template(TemplateError),
    Conflict { path: String, sources: Vec<String> },
    OutputExists { path: String },
    Write { path: String, source: std::io::Error },
    Backup { path: String, source: std::io::Error },
    Serialize { source: serde_json::Error },
    RoundtripMismatch { path: String },
    Cancelled,
    Prompt(String),
    Read { path: String, source: std::io::Error },
    InputDirNotFound { path: String },
    EmptyInputDir { path: String },
    NotAFragmentDir { name: String },
}

/// A value proposed for a path by a fragment.
#[derive(Debug)]
pub struct ConflictCandidate {
    /// The value.
    pub value: JsonValue,
    /// The fragment's file name.
    pub source: String,
}

/// The values set at one path, in fragment order.
#[derive(Debug)]
pub struct Candidates {
    pub items: Vec<ConflictCandidate>,
}

impl View for Candidates {
    type V = Seq<(Seq<char>, Json)>;

    open spec fn view(&self) -> Seq<(Seq<char>, Json)> {
        Seq::new(self.items@.len(), |i: int| (self.items@[i].source@, self.items@[i].value@))
    }
}

// ---------------------------------------------------------------------------
// Agent fragments
// ---------------------------------------------------------------------------

/// ASCII digit.
pub open spec fn is_digit(c: char) -> bool {
    '0' <= c && c <= '9'
}

/// Position of the first `c` in `s`, or -1.
pub open spec fn first_index_of(s: Seq<char>, c: char) -> int
    decreases s.len(),
{
    if s.len() == 0 {
        -1
    } else if s[0] == c {
        0
    } else {
        let r = first_index_of(s.drop_first(), c);
        if r < 0 {
            -1
        } else {
            r + 1
        }
    }
}

/// The agent of a numbered fragment `<digits>-<agent>.<ext>`.
pub open spec fn agent_of_filename(filename: Seq<char>) -> Option<Seq<char>> {
    let stem = file_stem(filename);
    let d = first_index_of(stem, '-');
    if d <= 0 {
        None
    } else if !(forall|i: int| 0 <= i < d ==> is_digit(#[trigger] stem[i])) {
        None
    } else if d + 1 >= stem.len() {
        None
    } else {
        Some(stem.subrange(d + 1, stem.len() as int))
    }
}

proof fn lemma_first_index_of(s: Seq<char>, c: char)
    ensures
        -1 <= first_index_of(s, c) < s.len(),
        first_index_of(s, c) >= 0 ==> s[first_index_of(s, c)] == c,
        forall|k: int| 0 <= k < s.len() && (first_index_of(s, c) < 0 || k < first_index_of(s, c)) ==> s[k] != c,
    decreases s.len(),
{
    if s.len() > 0 && s[0] != c {
        lemma_first_index_of(s.drop_first(), c);
        assert forall|k: int| 0 <= k < s.len() && (first_index_of(s, c) < 0 || k < first_index_of(s, c)) implies s[k] != c by {
            if k > 0 {
                assert(s.drop_first()[k - 1] == s[k]);
            }
        }
    }
}

/// The agent name of a numbered fragment file name `<digits>-<agent>.<ext>`.
pub fn extract_agent_name(filename: &str) -> (r: Option<String>)
    ensures
        r matches Some(n) ==> agent_of_filename(filename@) == Some(n@),
        r is None ==> agent_of_filename(filename@) is None,
{
    let stem = stem_of(filename);
    let cs = chars_of(stem.as_str());
    proof {
        lemma_first_index_of(cs@, '-');
    }
    let mut d: usize = 0;
    while d < cs.len() && cs[d] != '-'
        invariant
            d <= cs.len(),
            forall|k: int| 0 <= k < d ==> cs@[k] != '-',
        decreases cs.len() - d,
    {
        d = d + 1;
    }
    if d == cs.len() {
        proof {
            if first_index_of(cs@, '-') >= 0 {
                assert(cs@[first_index_of(cs@, '-')] == '-');
            }
        }
        return None;
    }
    proof {
        assert(first_index_of(cs@, '-') == d) by {
            if first_index_of(cs@, '-') < 0 || first_index_of(cs@, '-') > d {
                assert(cs@[d as int] != '-');
            }
            if 0 <= first_index_of(cs@, '-') < d {
                assert(cs@[first_index_of(cs@, '-')] == '-');
            }
        }
    }
    if d == 0 {
        return None;
    }
    let mut i: usize = 0;
    while i < d
        invariant
            i <= d < cs.len(),
            forall|k: int| 0 <= k < i ==> is_digit(#[trigger] cs@[k]),
            first_index_of(cs@, '-') == d,
            cs@ == file_stem(filename@),
        decreases d - i,
    {
        if !('0' <= cs[i] && cs[i] <= '9') {
            proof {
                assert(!is_digit(cs@[i as int]));
            }
            return None;
        }
        i = i + 1;
    }
    if d + 1 >= cs.len() {
        return None;
    }
    let name = crate::strings::slice_chars(&cs, d + 1, cs.len());
    Some(string_from_chars(name.as_slice()))
}

/// The fragment as composed: a numbered agent fragment without an `agent`
/// member is wrapped as `{"agent": {<agent>: ...}}`; global fragments
/// (stem starting with `_`) and all others are kept.
pub open spec fn wrap_spec(filename: Seq<char>, v: Json) -> Json {
    let stem = file_stem(filename);
    if stem.len() > 0 && stem[0] == '_' {
        v
    } else {
        match agent_of_filename(filename) {
            None => v,
            Some(name) => if v is Object && has_key(v->Object_0, "agent"@) {
                v
            } else {
                Json::Object(seq![("agent"@, Json::Object(seq![(name, v)]))])
            },
        }
    }
}

/// Wraps a numbered agent fragment under `agent.<name>`.
pub fn maybe_wrap_agent(filename: &str, value: JsonValue) -> (r: JsonValue)
    requires
        value@.wf(),
    ensures
        r@ == wrap_spec(filename@, value@),
        r@.wf(),
{
    let stem = stem_of(filename);
    let scs = chars_of(stem.as_str());
    if scs.len() > 0 && scs[0] == '_' {
        return value;
    }
    let name = match extract_agent_name(filename) {
        Some(n) => n,
        None => {
            return value;
        },
    };
    match &value {
        JsonValue::Object(o) => {
            proof {
                lemma_object_view(o);
                lemma_wf_members(value@);
            }
            if o.contains_key("agent") {
                return value;
            }
        },
        _ => {},
    }
    let ghost vv = value@;
    let mut inner = JsonMap::new();
    inner.insert(name, value);
    proof {
        lemma_put_sorted(Seq::<(Seq<char>, Json)>::empty(), name@, vv);
        assert(inner@ =~= seq![(name@, vv)]);
        lemma_object_view(&inner);
        lemma_put_sorted(Seq::<(Seq<char>, Json)>::empty(), "agent"@, Json::Object(inner@));
    }
    let mut root = JsonMap::new();
    root.insert(to_owned_string("agent"), JsonValue::Object(inner));
    proof {
        assert(root@ =~= seq![("agent"@, Json::Object(seq![(name@, vv)]))]);
        lemma_object_view(&root);
        lemma_wf_intro(Json::Object(seq![(name@, vv)]));
        lemma_wf_intro(Json::Object(root@));
    }
    JsonValue::Object(root)
}


// ---------------------------------------------------------------------------
// Leaves and provenance
// ---------------------------------------------------------------------------

/// The path of member `key` under `prefix`, dot-separated.
pub open spec fn child_path(prefix: Seq<char>, key: Seq<char>) -> Seq<char> {
    if prefix.len() == 0 {
        key
    } else {
        prefix + "."@ + key
    }
}

/// Every leaf of a value (anything but an object) with its path, depth
/// first in key order.
pub open spec fn leaves(prefix: Seq<char>, v: Json) -> Seq<(Seq<char>, Json)>
    decreases v, 1int,
{
    match v {
        Json::Object(e) => member_leaves(prefix, e),
        _ => seq![(prefix, v)],
    }
}

pub open spec fn member_leaves(prefix: Seq<char>, e: Entries) -> Seq<(Seq<char>, Json)>
    decreases e, 0int,
{
    if e.len() == 0 {
        Seq::empty()
    } else {
        proof {
            assert(decreases_to!(e => e[e.len() - 1]));
        }
        member_leaves(prefix, e.drop_last()) + leaves(child_path(prefix, e.last().0), e.last().1)
    }
}

/// Leaves tagged with their fragment.
pub open spec fn tagged(ls: Seq<(Seq<char>, Json)>, source: Seq<char>) -> Seq<(Seq<char>, Seq<char>, Json)> {
    Seq::new(ls.len(), |i: int| (ls[i].0, source, ls[i].1))
}

/// The leaves of all fragments, in fragment order.
pub open spec fn all_leaves(frags: Seq<(Seq<char>, Json)>) -> Seq<(Seq<char>, Seq<char>, Json)>
    decreases frags.len(),
{
    if frags.len() == 0 {
        Seq::empty()
    } else {
        all_leaves(frags.drop_last()) + tagged(leaves(Seq::empty(), frags.last().1), frags.last().0)
    }
}

/// The fragments and values that set path `p`, in order.
pub open spec fn group(ls: Seq<(Seq<char>, Seq<char>, Json)>, p: Seq<char>) -> Seq<(Seq<char>, Json)>
    decreases ls.len(),
{
    if ls.len() == 0 {
        Seq::empty()
    } else {
        group(ls.drop_last(), p) + if ls.last().0 == p {
            seq![(ls.last().1, ls.last().2)]
        } else {
            Seq::empty()
        }
    }
}

/// The provenance of path `p`, when some fragment sets it.
pub open spec fn provenance_of(ls: Seq<(Seq<char>, Seq<char>, Json)>, p: Seq<char>) -> Option<Seq<(Seq<char>, Json)>> {
    if group(ls, p).len() > 0 {
        Some(group(ls, p))
    } else {
        None
    }
}

/// Two or more fragments set the path, not all to the same value.
pub open spec fn is_conflict(c: Seq<(Seq<char>, Json)>) -> bool {
    c.len() >= 2 && exists|i: int| 0 <= i < c.len() && #[trigger] c[i].1 != c[0].1
}

/// The conflicting paths of a provenance map, in path order.
pub open spec fn conflicts_of(p: Seq<(Seq<char>, Seq<(Seq<char>, Json)>)>) -> Seq<(Seq<char>, Seq<(Seq<char>, Json)>)>
    decreases p.len(),
{
    if p.len() == 0 {
        Seq::empty()
    } else {
        conflicts_of(p.drop_last()) + if is_conflict(p.last().1) {
            seq![p.last()]
        } else {
            Seq::empty()
        }
    }
}

/// Every leaf value is well formed.
pub open spec fn leaves_wf(ls: Seq<(Seq<char>, Seq<char>, Json)>) -> bool {
    forall|i: int| 0 <= i < ls.len() ==> (#[trigger] ls[i]).2.wf()
}

/// Every candidate value is well formed.
pub open spec fn cands_wf(c: Seq<(Seq<char>, Json)>) -> bool {
    forall|i: int| 0 <= i < c.len() ==> (#[trigger] c[i]).1.wf()
}

/// Every candidate value of every path is well formed.
pub open spec fn prov_wf(p: Seq<(Seq<char>, Seq<(Seq<char>, Json)>)>) -> bool {
    forall|j: int| 0 <= j < p.len() ==> cands_wf(#[trigger] p[j].1)
}

/// The model of collected leaves.
pub open spec fn leaf_view(v: Seq<(String, String, JsonValue)>) -> Seq<(Seq<char>, Seq<char>, Json)> {
    Seq::new(v.len(), |i: int| (v[i].0@, v[i].1@, v[i].2@))
}

/// The model of fragments.
pub open spec fn named_values(v: Seq<(String, JsonValue)>) -> Seq<(Seq<char>, Json)> {
    Seq::new(v.len(), |i: int| (v[i].0@, v[i].1@))
}

fn child_path_of(prefix: &String, key: &String) -> (r: String)
    ensures
        r@ == child_path(prefix@, key@),
{
    if prefix.as_str().is_empty() {
        key.clone()
    } else {
        concat3(prefix.as_str(), ".", key.as_str())
    }
}

#[verifier::loop_isolation(false)]
fn collect_leaves(prefix: &String, value: &JsonValue, source: &String, out: &mut Vec<(String, String, JsonValue)>)
    requires
        value@.wf(),
        leaves_wf(leaf_view(old(out)@)),
    ensures
        leaf_view(final(out)@) == leaf_view(old(out)@) + tagged(leaves(prefix@, value@), source@),
        leaves_wf(leaf_view(final(out)@)),
    decreases value, 1int,
{
    match value {
        JsonValue::Object(m) => {
            proof {
                lemma_object_view(m);
                lemma_wf_members(value@);
            }
            let ghost start = leaf_view(out@);
            let mut i: usize = 0;
            proof {
                assert(m@.subrange(0, 0) =~= Seq::<(Seq<char>, Json)>::empty());
                assert(tagged(member_leaves(prefix@, m@.subrange(0, 0)), source@) =~= Seq::<(Seq<char>, Seq<char>, Json)>::empty());
                assert(leaf_view(out@) =~= start + tagged(member_leaves(prefix@, m@.subrange(0, 0)), source@));
            }
            while i < m.entries.len()
                invariant
                    i <= m.entries.len(),
                    leaf_view(out@) == start + tagged(member_leaves(prefix@, m@.subrange(0, i as int)), source@),
                    leaves_wf(leaf_view(out@)),
                decreases m.entries.len() - i,
            {
                let path = child_path_of(prefix, &m.entries[i].0);
                proof {
                    assert(decreases_to!(value => m.entries@[i as int].1));
                    assert(m@[i as int].1.wf());
                }
                let ghost before = leaf_view(out@);
                collect_leaves(&path, &m.entries[i].1, source, out);
                proof {
                    let next = m@.subrange(0, i + 1);
                    assert(next.drop_last() =~= m@.subrange(0, i as int));
                    assert(next.last() == (m.entries@[i as int].0@, m.entries@[i as int].1@));
                    let a = member_leaves(prefix@, m@.subrange(0, i as int));
                    let b = leaves(path@, m.entries@[i as int].1@);
                    assert(tagged(a + b, source@) =~= tagged(a, source@) + tagged(b, source@));
                    assert(leaf_view(out@) =~= start + tagged(member_leaves(prefix@, next), source@));
                }
                i = i + 1;
            }
            proof {
                assert(m@.subrange(0, m@.len() as int) =~= m@);
            }
        },
        _ => {
            let ghost before = leaf_view(out@);
            out.push((prefix.clone(), source.clone(), value.deep_clone()));
            proof {
                assert(leaf_view(out@) =~= before + tagged(leaves(prefix@, value@), source@));
                assert(leaves_wf(leaf_view(out@))) by {
                    assert forall|i: int| 0 <= i < leaf_view(out@).len() implies (#[trigger] leaf_view(out@)[i]).2.wf() by {
                        if i < before.len() {
                            assert(leaf_view(out@)[i] == before[i]);
                        }
                    }
                }
            }
        },
    }
}

/// Every leaf of every fragment, tagged with the fragment's name.
pub fn collect_all_leaves(fragments: &Vec<(String, JsonValue)>) -> (r: Vec<(String, String, JsonValue)>)
    requires
        forall|i: int| 0 <= i < fragments@.len() ==> (#[trigger] fragments@[i]).1@.wf(),
    ensures
        leaf_view(r@) == all_leaves(named_values(fragments@)),
        leaves_wf(leaf_view(r@)),
{
    let ghost fv = named_values(fragments@);
    let mut out: Vec<(String, String, JsonValue)> = Vec::new();
    let empty = to_owned_string("");
    proof {
        reveal_strlit("");
        assert(empty@ =~= Seq::<char>::empty());
        assert(fv.subrange(0, 0) =~= Seq::<(Seq<char>, Json)>::empty());
        assert(leaf_view(out@) =~= Seq::<(Seq<char>, Seq<char>, Json)>::empty());
    }
    let mut i: usize = 0;
    while i < fragments.len()
        invariant
            i <= fragments.len(),
            fv == named_values(fragments@),
            empty@ == Seq::<char>::empty(),
            leaf_view(out@) == all_leaves(fv.subrange(0, i as int)),
            leaves_wf(leaf_view(out@)),
            forall|k: int| 0 <= k < fragments@.len() ==> (#[trigger] fragments@[k]).1@.wf(),
        decreases fragments.len() - i,
    {
        assert(fragments@[i as int].1@.wf());
        collect_leaves(&empty, &fragments[i].1, &fragments[i].0, &mut out);
        proof {
            let next = fv.subrange(0, i + 1);
            assert(next.drop_last() =~= fv.subrange(0, i as int));
            assert(next.last() == (fragments@[i as int].0@, fragments@[i as int].1@));
        }
        i = i + 1;
    }
    proof {
        assert(fv.subrange(0, fv.len() as int) =~= fv);
    }
    out
}

impl Candidates {
    /// A copy.
    pub fn copy(&self) -> (r: Candidates)
        ensures
            r@ == self@,
    {
        let mut items: Vec<ConflictCandidate> = Vec::new();
        let mut i: usize = 0;
        while i < self.items.len()
            invariant
                i <= self.items.len(),
                items@.len() == i,
                forall|j: int| 0 <= j < i ==> #[trigger] items@[j].source@ == self.items@[j].source@ && items@[j].value@ == self.items@[j].value@,
            decreases self.items.len() - i,
        {
            items.push(ConflictCandidate { value: self.items[i].value.deep_clone(), source: self.items[i].source.clone() });
            i = i + 1;
        }
        let r = Candidates { items };
        proof {
            assert(r@ =~= self@);
        }
        r
    }
}

/// Groups the leaves by path: for each path set by some fragment, the
/// fragments and values that set it, in order.
pub fn build_provenance(fragments: &Vec<(String, JsonValue)>) -> (r: KeyedMap<Candidates>)
    requires
        forall|i: int| 0 <= i < fragments@.len() ==> (#[trigger] fragments@[i]).1@.wf(),
    ensures
        prov_wf(r@),
        r@ == prov_fold(all_leaves(named_values(fragments@))),
        keys_sorted(r@),
        forall|p: Seq<char>| #[trigger] entries_get(r@, p) == provenance_of(all_leaves(named_values(fragments@)), p),
{
    let leaves_v = collect_all_leaves(fragments);
    let ghost ls = leaf_view(leaves_v@);
    let mut prov: KeyedMap<Candidates> = KeyedMap::new();
    let mut i: usize = 0;
    proof {
        assert(ls.subrange(0, 0) =~= Seq::<(Seq<char>, Seq<char>, Json)>::empty());
        assert forall|p: Seq<char>| #[trigger] entries_get(prov@, p) == provenance_of(ls.subrange(0, 0), p) by {
            assert(!has_key(prov@, p));
        }
        assert(prov@ =~= prov_fold(ls.subrange(0, 0)));
    }
    while i < leaves_v.len()
        invariant
            i <= leaves_v.len(),
            ls == leaf_view(leaves_v@),
            prov@ == prov_fold(ls.subrange(0, i as int)),
            keys_sorted(prov@),
            prov_wf(prov@),
            leaves_wf(ls),
            forall|p: Seq<char>| #[trigger] entries_get(prov@, p) == provenance_of(ls.subrange(0, i as int), p),
        decreases leaves_v.len() - i,
    {
        let path = &leaves_v[i].0;
        assert(ls[i as int].2.wf());
        let cand = ConflictCandidate { value: leaves_v[i].2.deep_clone(), source: leaves_v[i].1.clone() };
        let ghost cv = (cand.source@, cand.value@);
        let ghost old_prov = prov@;
        proof {
            let next = ls.subrange(0, i + 1);
            assert(next.drop_last() =~= ls.subrange(0, i as int));
            assert(next.last() == (path@, cv.0, cv.1));
        }
        match prov.find(path.as_str()) {
            Some(idx) => {
                let (k, mut c) = prov.entries.remove(idx);
                let ghost cold = c@;
                c.items.push(cand);
                proof {
                    assert(c@ =~= cold.push(cv));
                }
                prov.entries.insert(idx, (k, c));
                proof {
                    assert(prov@ =~= entries_put(old_prov, path@, cold.push(cv)));
                }
            },
            None => {
                let mut items: Vec<ConflictCandidate> = Vec::new();
                items.push(cand);
                let c = Candidates { items };
                proof {
                    assert(c@ =~= seq![cv]);
                }
                prov.insert(path.clone(), c);
            },
        }
        proof {
            lemma_provenance_step(old_prov, prov@, ls, i as int);
            let next = ls.subrange(0, i + 1);
            assert(next.drop_last() =~= ls.subrange(0, i as int));
            assert(next.last() == ls[i as int]);
        }
        i = i + 1;
    }
    proof {
        assert(ls.subrange(0, ls.len() as int) =~= ls);
    }
    prov
}

/// The provenance map built leaf by leaf.
pub open spec fn prov_fold(ls: Seq<(Seq<char>, Seq<char>, Json)>) -> Seq<(Seq<char>, Seq<(Seq<char>, Json)>)>
    decreases ls.len(),
{
    if ls.len() == 0 {
        Seq::empty()
    } else {
        let m = prov_fold(ls.drop_last());
        let (p, src, v) = ls.last();
        entries_put(
            m,
            p,
            match entries_get(m, p) {
                Some(g) => g.push((src, v)),
                None => seq![(src, v)],
            },
        )
    }
}

/// Adding the next leaf to a provenance map keeps it the provenance of the
/// leaves seen so far.
proof fn lemma_provenance_step(
    old_prov: Seq<(Seq<char>, Seq<(Seq<char>, Json)>)>,
    new_prov: Seq<(Seq<char>, Seq<(Seq<char>, Json)>)>,
    ls: Seq<(Seq<char>, Seq<char>, Json)>,
    i: int,
)
    requires
        0 <= i < ls.len(),
        keys_sorted(old_prov),
        prov_wf(old_prov),
        ls[i].2.wf(),
        forall|p: Seq<char>| #[trigger] entries_get(old_prov, p) == provenance_of(ls.subrange(0, i), p),
        new_prov == entries_put(
            old_prov,
            ls[i].0,
            match entries_get(old_prov, ls[i].0) {
                Some(g) => g.push((ls[i].1, ls[i].2)),
                None => seq![(ls[i].1, ls[i].2)],
            },
        ),
    ensures
        keys_sorted(new_prov),
        prov_wf(new_prov),
        forall|p: Seq<char>| #[trigger] entries_get(new_prov, p) == provenance_of(ls.subrange(0, i + 1), p),
{
    let prefix = ls.subrange(0, i);
    let next = ls.subrange(0, i + 1);
    let cv = (ls[i].1, ls[i].2);
    let path = ls[i].0;
    assert(next.drop_last() =~= prefix);
    assert(next.last() == ls[i]);
    let nv = match entries_get(old_prov, path) {
        Some(g) => g.push(cv),
        None => seq![cv],
    };
    lemma_put_sorted(old_prov, path, nv);
    assert(cands_wf(nv)) by {
        if has_key(old_prov, path) {
            let j = crate::keyed::key_index(old_prov, path);
            crate::keyed::lemma_key_index_found(old_prov, path);
            assert(cands_wf(old_prov[j].1));
            let g = old_prov[j].1;
            assert forall|x: int| 0 <= x < nv.len() implies (#[trigger] nv[x]).1.wf() by {
                if x < g.len() {
                    assert(nv[x] == g[x]);
                }
            }
        }
    }
    assert forall|j: int| 0 <= j < new_prov.len() implies cands_wf(#[trigger] new_prov[j].1) by {
        if new_prov[j] != (path, nv) {
            let x = choose|x: int| 0 <= x < old_prov.len() && old_prov[x] == new_prov[j];
            assert(cands_wf(old_prov[x].1));
        }
    }
    assert forall|p: Seq<char>| #[trigger] entries_get(new_prov, p) == provenance_of(next, p) by {
        if p == path {
            assert(group(next, p) == group(prefix, p).push(cv));
            if group(prefix, p).len() == 0 {
                assert(group(next, p) =~= seq![cv]);
            }
        } else {
            assert(group(next, p) =~= group(prefix, p));
        }
    }
}

fn candidates_conflict(c: &Candidates) -> (r: bool)
    ensures
        r == is_conflict(c@),
{
    if c.items.len() < 2 {
        return false;
    }
    let mut i: usize = 0;
    while i < c.items.len()
        invariant
            2 <= c.items.len(),
            i <= c.items.len(),
            forall|j: int| 0 <= j < i ==> #[trigger] c@[j].1 == c@[0].1,
        decreases c.items.len() - i,
    {
        if !json_eq(&c.items[i].value, &c.items[0].value) {
            proof {
                assert(c@[i as int].1 != c@[0].1);
            }
            return true;
        }
        i = i + 1;
    }
    false
}

/// The model of detected conflicts.
pub open spec fn conflicts_view(v: Seq<(String, Candidates)>) -> Seq<(Seq<char>, Seq<(Seq<char>, Json)>)> {
    Seq::new(v.len(), |i: int| (v[i].0@, v[i].1@))
}

/// The paths set to differing values by two or more fragments, in path
/// order, with their candidates.
pub fn detect_conflicts(provenance: &KeyedMap<Candidates>) -> (r: Vec<(String, Candidates)>)
    ensures
        conflicts_view(r@) == conflicts_of(provenance@),
        prov_wf(provenance@) ==> prov_wf(conflicts_view(r@)),
        forall|i: int| 0 <= i < r@.len() ==> (#[trigger] r@[i]).1@.len() >= 2,
{
    let mut out: Vec<(String, Candidates)> = Vec::new();
    let mut i: usize = 0;
    proof {
        assert(provenance@.subrange(0, 0) =~= Seq::<(Seq<char>, Seq<(Seq<char>, Json)>)>::empty());
        assert(conflicts_view(out@) =~= Seq::<(Seq<char>, Seq<(Seq<char>, Json)>)>::empty());
    }
    while i < provenance.entries.len()
        invariant
            i <= provenance.entries.len(),
            conflicts_view(out@) == conflicts_of(provenance@.subrange(0, i as int)),
        decreases provenance.entries.len() - i,
    {
        proof {
            let next = provenance@.subrange(0, i + 1);
            assert(next.drop_last() =~= provenance@.subrange(0, i as int));
            assert(next.last() == (provenance.entries@[i as int].0@, provenance.entries@[i as int].1@));
        }
        if candidates_conflict(&provenance.entries[i].1) {
            let ghost before = conflicts_view(out@);
            out.push((provenance.entries[i].0.clone(), provenance.entries[i].1.copy()));
            proof {
                assert(conflicts_view(out@) =~= before.push((provenance.entries@[i as int].0@, provenance.entries@[i as int].1@)));
            }
        }
        i = i + 1;
    }
    proof {
        assert(provenance@.subrange(0, provenance@.len() as int) =~= provenance@);
        lemma_conflicts_of(provenance@);
        assert forall|i: int| 0 <= i < out@.len() implies (#[trigger] out@[i]).1@.len() >= 2 by {
            assert(conflicts_view(out@)[i].1 == out@[i].1@);
        }
    }
    out
}

proof fn lemma_conflicts_of(p: Seq<(Seq<char>, Seq<(Seq<char>, Json)>)>)
    ensures
        forall|i: int| 0 <= i < conflicts_of(p).len() ==> (#[trigger] conflicts_of(p)[i]).1.len() >= 2,
        prov_wf(p) ==> prov_wf(conflicts_of(p)),
    decreases p.len(),
{
    if p.len() > 0 {
        let d = p.drop_last();
        lemma_conflicts_of(d);
        let c = conflicts_of(p);
        let cd = conflicts_of(d);
        assert forall|i: int| 0 <= i < c.len() implies (#[trigger] c[i]).1.len() >= 2 by {
            if i < cd.len() {
                assert(c[i] == cd[i]);
            }
        }
        if prov_wf(p) {
            assert forall|j: int| 0 <= j < d.len() implies cands_wf(#[trigger] d[j].1) by {
                assert(d[j] == p[j]);
            }
            assert forall|j: int| 0 <= j < c.len() implies cands_wf(#[trigger] c[j].1) by {
                if j < cd.len() {
                    assert(c[j] == cd[j]);
                } else {
                    assert(c[j] == p.last());
                    assert(cands_wf(p[p.len() - 1].1));
                }
            }
        }
    }
}


// ---------------------------------------------------------------------------
// Resolution and merging
// ---------------------------------------------------------------------------

/// How the conflicts of one composition are resolved.
pub enum Resolution {
    /// The first conflict is an error.
    Error,
    /// The last candidate of each conflict wins.
    LastWins,
    /// The candidate chosen for each conflict, in conflict order.
    Choices(Vec<usize>),
}

/// The fragment names of candidates.
pub open spec fn sources_of(c: Seq<(Seq<char>, Json)>) -> Seq<Seq<char>> {
    Seq::new(c.len(), |i: int| c[i].0)
}

/// The winning value of each conflict, or the first conflict as an error.
pub enum ResolveModel {
    Resolved(Seq<(Seq<char>, Json)>),
    Conflict(Seq<char>, Seq<Seq<char>>),
}

/// The choices name a candidate of every conflict.
pub open spec fn choices_fit(res: Resolution, conflicts: Seq<(Seq<char>, Seq<(Seq<char>, Json)>)>) -> bool {
    match res {
        Resolution::Choices(ch) => ch@.len() == conflicts.len() && forall|i: int|
            0 <= i < ch@.len() ==> #[trigger] ch@[i] < conflicts[i].1.len(),
        _ => true,
    }
}

/// The resolution of the conflicts.
pub open spec fn resolve_spec(conflicts: Seq<(Seq<char>, Seq<(Seq<char>, Json)>)>, res: Resolution) -> ResolveModel {
    match res {
        Resolution::Error => if conflicts.len() > 0 {
            ResolveModel::Conflict(conflicts[0].0, sources_of(conflicts[0].1))
        } else {
            ResolveModel::Resolved(Seq::empty())
        },
        Resolution::LastWins => ResolveModel::Resolved(
            Seq::new(conflicts.len(), |i: int| (conflicts[i].0, conflicts[i].1.last().1)),
        ),
        Resolution::Choices(ch) => ResolveModel::Resolved(
            Seq::new(conflicts.len(), |i: int| (conflicts[i].0, conflicts[i].1[ch@[i] as int].1)),
        ),
    }
}

/// `str::split('.')`: the parts between dots.
pub open spec fn split_dots(s: Seq<char>) -> Seq<Seq<char>>
    decreases s.len(),
{
    if s.len() == 0 {
        seq![Seq::empty()]
    } else {
        let r = split_dots(s.drop_last());
        if s.last() == '.' {
            r.push(Seq::empty())
        } else {
            r.update(r.len() - 1, r.last().push(s.last()))
        }
    }
}

proof fn lemma_split_dots_len(s: Seq<char>)
    ensures
        split_dots(s).len() >= 1,
    decreases s.len(),
{
    if s.len() > 0 {
        lemma_split_dots_len(s.drop_last());
    }
}

/// `root` with the value at the dotted path `parts` set to `v`, when every
/// intermediate member exists and is an object; otherwise unchanged.
pub open spec fn set_path(root: Json, parts: Seq<Seq<char>>, v: Json) -> Json
    decreases parts.len(),
{
    if parts.len() == 0 {
        root
    } else {
        match root {
            Json::Object(e) => if parts.len() == 1 {
                Json::Object(entries_put(e, parts[0], v))
            } else {
                match entries_get(e, parts[0]) {
                    Some(child) => Json::Object(entries_put(e, parts[0], set_path(child, parts.drop_first(), v))),
                    None => root,
                }
            },
            _ => root,
        }
    }
}

/// The resolved values set in order.
pub open spec fn apply_resolutions(root: Json, rs: Seq<(Seq<char>, Json)>) -> Json
    decreases rs.len(),
{
    if rs.len() == 0 {
        root
    } else {
        set_path(apply_resolutions(root, rs.drop_last()), split_dots(rs.last().0), rs.last().1)
    }
}

/// The values of named fragments.
pub open spec fn values_of(frags: Seq<(Seq<char>, Json)>) -> Seq<Json> {
    Seq::new(frags.len(), |i: int| frags[i].1)
}

/// The conflicts of a list of fragments.
pub open spec fn fragment_conflicts(frags: Seq<(Seq<char>, Json)>) -> Seq<(Seq<char>, Seq<(Seq<char>, Json)>)> {
    conflicts_of(prov_fold(all_leaves(frags)))
}

/// The composition: the fragments merged in order into an empty object,
/// with the resolved value of every conflict set on top; or the first
/// conflict when conflicts are errors.
pub open spec fn compose_spec(frags: Seq<(Seq<char>, Json)>, res: Resolution) -> Result<Json, (Seq<char>, Seq<Seq<char>>)> {
    match resolve_spec(fragment_conflicts(frags), res) {
        ResolveModel::Conflict(p, s) => Err((p, s)),
        ResolveModel::Resolved(rs) => Ok(apply_resolutions(merge_all(empty_object(), values_of(frags)), rs)),
    }
}

/// Fragments without conflicts compose to their merge in order, whatever
/// the conflict strategy.
pub proof fn law_conflict_free_composes_by_merge(frags: Seq<(Seq<char>, Json)>, res: Resolution)
    requires
        fragment_conflicts(frags).len() == 0,
    ensures
        compose_spec(frags, res) == Ok::<Json, (Seq<char>, Seq<Seq<char>>)>(
            merge_all(empty_object(), values_of(frags)),
        ),
{
    let c = fragment_conflicts(frags);
    match res {
        Resolution::Error => {},
        Resolution::LastWins => {
            assert(Seq::new(c.len(), |i: int| (c[i].0, c[i].1.last().1)) =~= Seq::<(Seq<char>, Json)>::empty());
        },
        Resolution::Choices(ch) => {
            assert(Seq::new(c.len(), |i: int| (c[i].0, c[i].1[ch@[i] as int].1)) =~= Seq::<(Seq<char>, Json)>::empty());
        },
    }
}

/// The texts of strings.
pub open spec fn texts(v: Seq<String>) -> Seq<Seq<char>> {
    Seq::new(v.len(), |i: int| v[i]@)
}

/// Resolves every conflict by the resolution.
pub fn resolve_all_conflicts(conflicts: &Vec<(String, Candidates)>, resolution: &Resolution) -> (r: Result<
    Vec<(String, JsonValue)>,
    ComposeError,
>)
    requires
        forall|i: int| 0 <= i < conflicts@.len() ==> (#[trigger] conflicts@[i]).1@.len() >= 2,
        choices_fit(*resolution, conflicts_view(conflicts@)),
    ensures
        prov_wf(conflicts_view(conflicts@)) ==> (r matches Ok(v) ==> forall|i: int| 0 <= i < v@.len() ==> (#[trigger] v@[i]).1@.wf()),
        match resolve_spec(conflicts_view(conflicts@), *resolution) {
            ResolveModel::Resolved(rs) => r matches Ok(v) && named_values(v@) == rs,
            ResolveModel::Conflict(p, srcs) => r matches Err(ComposeError::Conflict { path, sources }) && path@ == p
                && texts(sources@) == srcs,
        },
{
    let ghost cv = conflicts_view(conflicts@);
    match resolution {
        Resolution::Error => {
            if conflicts.len() > 0 {
                let c = &conflicts[0].1;
                let mut sources: Vec<String> = Vec::new();
                let mut i: usize = 0;
                while i < c.items.len()
                    invariant
                        i <= c.items.len(),
                        sources@.len() == i,
                        forall|j: int| 0 <= j < i ==> #[trigger] sources@[j]@ == c@[j].0,
                    decreases c.items.len() - i,
                {
                    sources.push(c.items[i].source.clone());
                    i = i + 1;
                }
                proof {
                    assert(texts(sources@) =~= sources_of(cv[0].1));
                }
                return Err(ComposeError::Conflict { path: conflicts[0].0.clone(), sources });
            }
            let out: Vec<(String, JsonValue)> = Vec::new();
            proof {
                assert(named_values(out@) =~= Seq::<(Seq<char>, Json)>::empty());
            }
            Ok(out)
        },
        _ => {
            let mut out: Vec<(String, JsonValue)> = Vec::new();
            let mut i: usize = 0;
            while i < conflicts.len()
                invariant
                    i <= conflicts.len(),
                    cv == conflicts_view(conflicts@),
                    forall|k: int| 0 <= k < conflicts@.len() ==> (#[trigger] conflicts@[k]).1@.len() >= 2,
                    choices_fit(*resolution, cv),
                    !(*resolution is Error),
                    out@.len() == i,
                    forall|j: int| 0 <= j < i ==> #[trigger] named_values(out@)[j] == (resolve_spec(cv, *resolution)->Resolved_0)[j],
                    prov_wf(cv) ==> forall|j: int| 0 <= j < i ==> (#[trigger] out@[j]).1@.wf(),
                decreases conflicts.len() - i,
            {
                let c = &conflicts[i].1;
                assert(conflicts@[i as int].1@.len() >= 2);
                let idx: usize = match resolution {
                    Resolution::Choices(ch) => ch[i],
                    _ => c.items.len() - 1,
                };
                let ghost before = named_values(out@);
                proof {
                    if prov_wf(cv) {
                        assert(cv[i as int].1 == c@);
                        assert(cands_wf(c@));
                        assert(c@[idx as int].1.wf());
                    }
                }
                out.push((conflicts[i].0.clone(), c.items[idx].value.deep_clone()));
                proof {
                    assert forall|j: int| 0 <= j < i + 1 implies #[trigger] named_values(out@)[j] == (resolve_spec(cv, *resolution)->Resolved_0)[j] by {
                        if j < i {
                            assert(named_values(out@)[j] == before[j]);
                        }
                    }
                }
                i = i + 1;
            }
            proof {
                assert(named_values(out@) =~= resolve_spec(cv, *resolution)->Resolved_0);
            }
            Ok(out)
        },
    }
}

/// The parts of a dotted path.
pub fn split_path(path: &str) -> (r: Vec<String>)
    ensures
        texts(r@) == split_dots(path@),
{
    let cs = chars_of(path);
    let mut done: Vec<String> = Vec::new();
    let mut cur: Vec<char> = Vec::new();
    let mut i: usize = 0;
    proof {
        assert(cs@.subrange(0, 0) =~= Seq::<char>::empty());
        assert(texts(done@).push(cur@) =~= seq![Seq::<char>::empty()]);
    }
    while i < cs.len()
        invariant
            i <= cs.len(),
            cs@ == path@,
            split_dots(cs@.subrange(0, i as int)) == texts(done@).push(cur@),
        decreases cs.len() - i,
    {
        proof {
            let next = cs@.subrange(0, i + 1);
            assert(next.drop_last() =~= cs@.subrange(0, i as int));
            assert(next.last() == cs@[i as int]);
        }
        if cs[i] == '.' {
            let ghost before = texts(done@);
            let part = string_from_chars(cur.as_slice());
            done.push(part);
            cur = Vec::new();
            proof {
                assert(texts(done@) =~= before.push(part@));
                assert(texts(done@).push(cur@) =~= before.push(part@).push(Seq::<char>::empty()));
            }
        } else {
            let ghost before = texts(done@).push(cur@);
            cur.push(cs[i]);
            proof {
                assert(texts(done@).push(cur@) =~= before.update(before.len() - 1, before.last().push(cs@[i as int])));
            }
        }
        i = i + 1;
    }
    proof {
        assert(cs@.subrange(0, cs@.len() as int) =~= cs@);
    }
    let ghost before = texts(done@);
    let last = string_from_chars(cur.as_slice());
    done.push(last);
    proof {
        assert(texts(done@) =~= before.push(last@));
    }
    done
}

proof fn lemma_put_wf(e: Entries, k: Seq<char>, v: Json)
    requires
        Json::Object(e).wf(),
        v.wf(),
    ensures
        Json::Object(entries_put(e, k, v)).wf(),
{
    lemma_wf_members(Json::Object(e));
    lemma_put_sorted(e, k, v);
    let r = entries_put(e, k, v);
    assert forall|i: int| 0 <= i < r.len() implies #[trigger] r[i].1.wf() by {
        if r[i] != (k, v) {
            let j = choose|j: int| 0 <= j < e.len() && e[j] == r[i];
            assert(e[j].1.wf());
        }
    }
    lemma_wf_intro(Json::Object(r));
}

fn set_path_value(root: &JsonValue, parts: &Vec<String>, i: usize, v: &JsonValue) -> (r: JsonValue)
    requires
        root@.wf(),
        v@.wf(),
        i <= parts@.len(),
    ensures
        r@ == set_path(root@, texts(parts@).subrange(i as int, parts@.len() as int), v@),
        r@.wf(),
    decreases parts@.len() - i,
{
    let ghost ps = texts(parts@).subrange(i as int, parts@.len() as int);
    if i == parts.len() {
        return root.deep_clone();
    }
    assert(ps[0] == parts@[i as int]@);
    match root {
        JsonValue::Object(m) => {
            proof {
                lemma_object_view(m);
                lemma_wf_members(root@);
            }
            if i + 1 == parts.len() {
                let mut m2 = m.deep_clone();
                m2.insert(parts[i].clone(), v.deep_clone());
                proof {
                    lemma_put_wf(m@, parts@[i as int]@, v@);
                    lemma_object_view(&m2);
                }
                return JsonValue::Object(m2);
            }
            match m.get(parts[i].as_str()) {
                Some(child) => {
                    proof {
                        let j = crate::keyed::key_index(m@, parts@[i as int]@);
                        crate::keyed::lemma_key_index_found(m@, parts@[i as int]@);
                        assert(m@[j].1.wf());
                        assert(texts(parts@).subrange(i + 1, parts@.len() as int) =~= ps.drop_first());
                    }
                    let nc = set_path_value(child, parts, i + 1, v);
                    let mut m2 = m.deep_clone();
                    m2.insert(parts[i].clone(), nc);
                    proof {
                        lemma_put_wf(m@, parts@[i as int]@, nc@);
                        lemma_object_view(&m2);
                    }
                    JsonValue::Object(m2)
                },
                None => root.deep_clone(),
            }
        },
        _ => root.deep_clone(),
    }
}

/// Sets the value at the dotted path `path` inside `root`, when every
/// intermediate member exists and is an object.
pub fn set_at_path(root: &mut JsonValue, path: &str, new_value: JsonValue)
    requires
        old(root)@.wf(),
        new_value@.wf(),
    ensures
        final(root)@ == set_path(old(root)@, split_dots(path@), new_value@),
        final(root)@.wf(),
{
    let parts = split_path(path);
    proof {
        assert(texts(parts@).subrange(0, parts@.len() as int) =~= texts(parts@));
    }
    let r = set_path_value(root, &parts, 0, &new_value);
    *root = r;
}

/// Composes fragments (already wrapped): merges them in order into an empty
/// object and sets the resolved value of every conflict.
pub fn compose_fragments(fragments: &Vec<(String, JsonValue)>, resolution: &Resolution) -> (r: Result<
    JsonValue,
    ComposeError,
>)
    requires
        forall|i: int| 0 <= i < fragments@.len() ==> (#[trigger] fragments@[i]).1@.wf(),
        choices_fit(*resolution, fragment_conflicts(named_values(fragments@))),
    ensures
        match compose_spec(named_values(fragments@), *resolution) {
            Ok(v) => r matches Ok(x) && x@ == v && x@.wf(),
            Err((p, srcs)) => r matches Err(ComposeError::Conflict { path, sources }) && path@ == p && texts(
                sources@,
            ) == srcs,
        },
{
    let ghost fv = named_values(fragments@);
    let prov = build_provenance(fragments);
    let conflicts = detect_conflicts(&prov);
    let resolutions = resolve_all_conflicts(&conflicts, resolution)?;
    let mut merged = JsonValue::empty_object();
    let mut i: usize = 0;
    proof {
        assert(values_of(fv).subrange(0, 0) =~= Seq::<Json>::empty());
    }
    while i < fragments.len()
        invariant
            i <= fragments.len(),
            fv == named_values(fragments@),
            forall|k: int| 0 <= k < fragments@.len() ==> (#[trigger] fragments@[k]).1@.wf(),
            merged@ == merge_all(empty_object(), values_of(fv).subrange(0, i as int)),
            merged@.wf(),
        decreases fragments.len() - i,
    {
        proof {
            let next = values_of(fv).subrange(0, i + 1);
            assert(next.drop_last() =~= values_of(fv).subrange(0, i as int));
            assert(fragments@[i as int].1@.wf());
        }
        deep_merge(&mut merged, &fragments[i].1);
        i = i + 1;
    }
    proof {
        assert(values_of(fv).subrange(0, fv.len() as int) =~= values_of(fv));
    }
    let ghost base = merged@;
    let ghost rs = named_values(resolutions@);
    let mut j: usize = 0;
    proof {
        assert(rs.subrange(0, 0) =~= Seq::<(Seq<char>, Json)>::empty());
    }
    while j < resolutions.len()
        invariant
            j <= resolutions.len(),
            rs == named_values(resolutions@),
            merged@ == apply_resolutions(base, rs.subrange(0, j as int)),
            merged@.wf(),
            forall|k: int| 0 <= k < resolutions@.len() ==> (#[trigger] resolutions@[k]).1@.wf(),
        decreases resolutions.len() - j,
    {
        proof {
            let next = rs.subrange(0, j + 1);
            assert(next.drop_last() =~= rs.subrange(0, j as int));
            assert(next.last() == (resolutions@[j as int].0@, resolutions@[j as int].1@));
            assert(resolutions@[j as int].1@.wf());
        }
        set_at_path(&mut merged, resolutions[j].0.as_str(), resolutions[j].1.deep_clone());
        j = j + 1;
    }
    proof {
        assert(rs.subrange(0, rs.len() as int) =~= rs);
    }
    Ok(merged)
}


// ---------------------------------------------------------------------------
// The pipeline
// ---------------------------------------------------------------------------

/// Orchestrates a composition.
pub struct Composer {
    pub options: ComposeOptions,
}

/// What a run does after composing: the value, whether it is written, and
/// whether the existing output is backed up first.
pub struct RunPlan {
    pub value: JsonValue,
    pub write: bool,
    pub backup: bool,
}

/// The resolution a strategy asks for: with `Interactive`, the choices made
/// at a terminal, and the last candidate without one.
pub open spec fn strategy_resolution(conflict: Conflict, choices: Option<Vec<usize>>) -> Resolution {
    match conflict {
        Conflict::Error => Resolution::Error,
        Conflict::LastWins => Resolution::LastWins,
        Conflict::Interactive => match choices {
            Some(c) => Resolution::Choices(c),
            None => Resolution::LastWins,
        },
    }
}

impl Composer {
    pub fn new(options: ComposeOptions) -> (r: Self)
        ensures
            r.options == options,
    {
        Composer { options }
    }

    /// The text written for the serialized composition: pretty output ends
    /// with a line break (one is added when missing), compact output is
    /// written as it is.
    pub fn output_text(&self, serialized: &str) -> (r: String)
        ensures
            r@ == if self.options.pretty && !seq_ends_with(serialized@, "\n"@) {
                serialized@ + "\n"@
            } else {
                serialized@
            },
    {
        if self.options.pretty && !ends_with(serialized, "\n") {
            concat(serialized, "\n")
        } else {
            to_owned_string(serialized)
        }
    }

    /// Wraps every numbered agent fragment.
    pub fn wrap_fragments(fragments: Vec<(String, JsonValue)>) -> (r: Vec<(String, JsonValue)>)
        requires
            forall|i: int| 0 <= i < fragments@.len() ==> (#[trigger] fragments@[i]).1@.wf(),
        ensures
            r@.len() == fragments@.len(),
            forall|i: int| 0 <= i < r@.len() ==> (#[trigger] r@[i]).0@ == fragments@[i].0@ && r@[i].1@
                == wrap_spec(fragments@[i].0@, fragments@[i].1@) && r@[i].1@.wf(),
    {
        let mut out: Vec<(String, JsonValue)> = Vec::new();
        let mut i: usize = 0;
        while i < fragments.len()
            invariant
                i <= fragments@.len(),
                forall|k: int| 0 <= k < fragments@.len() ==> (#[trigger] fragments@[k]).1@.wf(),
                out@.len() == i,
                forall|k: int| 0 <= k < i ==> (#[trigger] out@[k]).0@ == fragments@[k].0@ && out@[k].1@ == wrap_spec(fragments@[k].0@, fragments@[k].1@)
                    && out@[k].1@.wf(),
            decreases fragments.len() - i,
        {
            assert(fragments@[i as int].1@.wf());
            let wrapped = maybe_wrap_agent(fragments[i].0.as_str(), fragments[i].1.deep_clone());
            out.push((fragments[i].0.clone(), wrapped));
            i = i + 1;
        }
        out
    }

    /// The conflicts between fragments.
    pub fn conflicts(fragments: &Vec<(String, JsonValue)>) -> (r: Vec<(String, Candidates)>)
        requires
            forall|i: int| 0 <= i < fragments@.len() ==> (#[trigger] fragments@[i]).1@.wf(),
        ensures
            conflicts_view(r@) == fragment_conflicts(named_values(fragments@)),
    {
        let prov = build_provenance(fragments);
        detect_conflicts(&prov)
    }

    /// Composes wrapped fragments with the configured strategy; `choices`
    /// are the candidates picked at a terminal, one per conflict, for the
    /// interactive strategy.
    pub fn compose(&self, fragments: &Vec<(String, JsonValue)>, choices: Option<Vec<usize>>) -> (r: Result<
        JsonValue,
        ComposeError,
    >)
        requires
            forall|i: int| 0 <= i < fragments@.len() ==> (#[trigger] fragments@[i]).1@.wf(),
            choices_fit(strategy_resolution(self.options.conflict, choices), fragment_conflicts(named_values(fragments@))),
        ensures
            match compose_spec(named_values(fragments@), strategy_resolution(self.options.conflict, choices)) {
                Ok(v) => r matches Ok(x) && x@ == v,
                Err((p, srcs)) => r matches Err(ComposeError::Conflict { path, sources }) && path@ == p && texts(
                    sources@,
                ) == srcs,
            },
    {
        let resolution = match self.options.conflict {
            Conflict::Error => Resolution::Error,
            Conflict::LastWins => Resolution::LastWins,
            Conflict::Interactive => match choices {
                Some(c) => Resolution::Choices(c),
                None => Resolution::LastWins,
            },
        };
        compose_fragments(fragments, &resolution)
    }
}

/// The composed template, without writing anything.
pub fn run_preview(options: ComposeOptions, fragments: &Vec<(String, JsonValue)>, choices: Option<Vec<usize>>) -> (r: Result<
    JsonValue,
    ComposeError,
>)
    requires
        forall|i: int| 0 <= i < fragments@.len() ==> (#[trigger] fragments@[i]).1@.wf(),
        choices_fit(strategy_resolution(options.conflict, choices), fragment_conflicts(named_values(fragments@))),
    ensures
        match compose_spec(named_values(fragments@), strategy_resolution(options.conflict, choices)) {
            Ok(v) => r matches Ok(x) && x@ == v,
            Err((p, srcs)) => r matches Err(ComposeError::Conflict { path, sources }) && path@ == p && texts(
                sources@,
            ) == srcs,
        },
{
    let composer = Composer::new(options);
    composer.compose(fragments, choices)
}

/// A run: the composed template, and whether it is written (not in a dry
/// run, and an existing output only with `force`) and backed up first.
pub fn run(
    options: ComposeOptions,
    fragments: &Vec<(String, JsonValue)>,
    choices: Option<Vec<usize>>,
    out_exists: bool,
) -> (r: Result<RunPlan, ComposeError>)
    requires
        forall|i: int| 0 <= i < fragments@.len() ==> (#[trigger] fragments@[i]).1@.wf(),
        choices_fit(strategy_resolution(options.conflict, choices), fragment_conflicts(named_values(fragments@))),
    ensures
        match compose_spec(named_values(fragments@), strategy_resolution(options.conflict, choices)) {
            Ok(v) => if !options.dry_run && out_exists && !options.force {
                r matches Err(ComposeError::OutputExists { path }) && path@ == options.out@
            } else {
                r matches Ok(plan) && plan.value@ == v && plan.write == !options.dry_run && plan.backup == (
                !options.dry_run && options.backup && out_exists)
            },
            Err((p, srcs)) => r matches Err(ComposeError::Conflict { path, sources }) && path@ == p && texts(
                sources@,
            ) == srcs,
        },
{
    let dry_run = options.dry_run;
    let force = options.force;
    let backup = options.backup;
    let out = options.out.clone();
    let composer = Composer::new(options);
    let value = composer.compose(fragments, choices)?;
    if dry_run {
        return Ok(RunPlan { value, write: false, backup: false });
    }
    if out_exists && !force {
        return Err(ComposeError::OutputExists { path: out });
    }
    Ok(RunPlan { value, write: true, backup: backup && out_exists })
}

/// Where `compose` reads fragments from, and the template it composes: a
/// template name with a fragment directory gives that directory; a name
/// with only a template file is refused, since it has no fragments yet;
/// anything else is taken as a directory path.
pub open spec fn compose_input_spec(config_dir: Seq<char>, input: Seq<char>, p: TemplateProbe) -> Result<
    (Seq<char>, Option<Seq<char>>),
    Seq<char>,
> {
    if !valid_template_name(input) {
        Ok((input, None))
    } else if p.dir_exists {
        Ok((fragment_dir_path(config_dir, input), Some(input)))
    } else if p.json_file || p.yaml_file || p.yml_file {
        Err(input)
    } else {
        Ok((input, None))
    }
}

/// Resolves the `compose` input argument, given what the file system shows
/// of the template of that name.
pub fn resolve_compose_input(config_dir: &str, input: &str, probe: &TemplateProbe) -> (r: Result<
    (String, Option<String>),
    ComposeError,
>)
    ensures
        match compose_input_spec(config_dir@, input@, *probe) {
            Ok((dir, name)) => r matches Ok((d, n)) && d@ == dir && match name {
                Some(x) => n matches Some(y) && y@ == x,
                None => n is None,
            },
            Err(name) => r matches Err(ComposeError::NotAFragmentDir { name: n }) && n@ == name,
        },
{
    if is_valid_template_name(input) {
        if probe.dir_exists {
            return Ok((fragment_dir(config_dir, input), Some(to_owned_string(input))));
        }
        if probe.json_file || probe.yaml_file || probe.yml_file {
            return Err(ComposeError::NotAFragmentDir { name: to_owned_string(input) });
        }
    }
    Ok((to_owned_string(input), None))
}

/// The input must be a directory holding template files.
pub fn check_input(input_dir: &str, is_dir: bool, template_files: usize) -> (r: Result<(), ComposeError>)
    ensures
        !is_dir ==> (r matches Err(ComposeError::InputDirNotFound { path }) && path@ == input_dir@),
        is_dir && template_files == 0 ==> (r matches Err(ComposeError::EmptyInputDir { path }) && path@ == input_dir@),
        is_dir && template_files > 0 ==> r is Ok,
{
    if !is_dir {
        return Err(ComposeError::InputDirNotFound { path: to_owned_string(input_dir) });
    }
    if template_files == 0 {
        return Err(ComposeError::EmptyInputDir { path: to_owned_string(input_dir) });
    }
    Ok(())
}

/// The output read back must parse to the value that was written.
pub fn verify_roundtrip(path: &str, written: &JsonValue, expected: &JsonValue) -> (r: Result<(), ComposeError>)
    ensures
        r is Ok <==> written@ == expected@,
        r matches Err(e) ==> (e matches ComposeError::RoundtripMismatch { path: p } && p@ == path@),
{
    if !json_eq(written, expected) {
        return Err(ComposeError::RoundtripMismatch { path: to_owned_string(path) });
    }
    Ok(())
}

} // verus!
