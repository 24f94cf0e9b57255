//! Templates: names and their resolution to files or fragment directories,
//! merging of fragments, model aliases and the placeholder mapping built
//! from a palette.

use vstd::prelude::*;
use crate::config::{
    AgentConfig, AgentModel, Palette, PaletteModel, Reasoning, ReasoningModel, palette_wf,
};
use crate::json::{
    Json, Entries, JsonMap, JsonValue, merge, merged, lemma_object_view, lemma_wf_members,
};
use crate::keyed::{KeyedMap, entries_get, entries_put, has_key, keys_sorted};
use crate::pattern::{EXACT_PLACEHOLDER_PATTERN, pattern_compiles, pattern_scan, regex_check, regex_scan};
use crate::strings::{
    concat, concat3, contains_char, extension_of, file_extension, file_stem,
    seq_ascii_lower, seq_ends_with, seq_starts_with, seq_trim, stem_of, str_eq, strip_prefix,
    strip_suffix, to_ascii_lowercase, to_owned_string, trim, seq_lt, string_lt,
    lemma_seq_lt_asymmetric, lemma_seq_lt_total, lemma_seq_lt_transitive,
};
use crate::substitute::put_all;
use crate::validate::generates;
use crate::keyed::{lemma_put_sorted, lemma_key_index_found};

verus! {

/// Why a template could not be resolved or loaded.
#[derive(Debug)]
pub enum TemplateError {
    Read { path: String, source: std::io::Error },
    Parse { path: String, source: serde_json::Error },
    ParseYaml { path: String, source: serde_yaml::Error },
    ConvertYaml { path: String, source: serde_json::Error },
    UnsupportedExtension { path: String, extension: String },
    MissingDir { path: String },
    AmbiguousTemplate { name: String, file_path: String, dir_path: String },
    EmptyTemplateDir { path: String },
}

/// Whether a template name resolved to a single file or a fragment directory.
#[derive(Debug, Clone, PartialEq, Eq)]
pub enum TemplateSource {
    /// A single template file (`.json`, `.yaml` or `.yml`).
    File(String),
    /// A directory of template fragments (`<name>.d/`).
    Directory(String),
}

/// The text format of a template file.
#[derive(Debug, Clone, Copy, PartialEq, Eq)]
pub enum TemplateFormat {
    Json,
    Yaml,
}

// ---------------------------------------------------------------------------
// Names and paths
// ---------------------------------------------------------------------------

/// `name` has a dot after its first character, i.e. a file extension.
pub open spec fn has_inner_dot(name: Seq<char>) -> bool {
    exists|i: int| 0 < i < name.len() && name[i] == '.'
}

/// A template base name: not empty, no path separator, not `.` and without
/// an extension.
pub open spec fn valid_template_name(name: Seq<char>) -> bool {
    &&& name.len() > 0
    &&& !name.contains('/')
    &&& !name.contains('\\')
    &&& name != seq!['.']
    &&& !has_inner_dot(name)
}

/// A template argument that names a template rather than a file: no path
/// separator and no extension.
pub open spec fn names_template(t: Seq<char>) -> bool {
    &&& !t.contains('/')
    &&& !t.contains('\\')
    &&& (t == seq!['.', '.'] || !has_inner_dot(t))
}

fn inner_dot(s: &str) -> (r: bool)
    ensures
        r == has_inner_dot(s@),
{
    let cs = crate::strings::chars_of(s);
    let mut i: usize = 1;
    while i < cs.len()
        invariant
            cs@ == s@,
            1 <= i,
            forall|k: int| 0 < k < i && k < cs@.len() ==> cs@[k] != '.',
        decreases cs.len() - i,
    {
        if cs[i] == '.' {
            return true;
        }
        i = i + 1;
    }
    false
}

/// `name` is a plain template name: not empty, no path separator, not `.` or
/// `..`, and no extension.
pub fn is_valid_template_name(name: &str) -> (r: bool)
    ensures
        r == valid_template_name(name@),
{
    if name.is_empty() {
        return false;
    }
    if contains_char(name, '/') || contains_char(name, '\\') {
        return false;
    }
    if str_eq(name, ".") {
        proof {
            reveal_strlit(".");
            assert("."@ =~= seq!['.']);
        }
        return false;
    }
    proof {
        reveal_strlit(".");
        assert("."@ =~= seq!['.']);
    }
    !inner_dot(name)
}

/// The template argument names a template (no separator, no extension)
/// rather than a file path.
pub fn should_resolve_template_name(template: &str) -> (r: bool)
    ensures
        r == names_template(template@),
{
    if contains_char(template, '/') || contains_char(template, '\\') {
        return false;
    }
    let dd = str_eq(template, "..");
    proof {
        reveal_strlit("..");
        assert(".."@ =~= seq!['.', '.']);
    }
    dd || !inner_dot(template)
}

/// One of the template extensions, compared without case.
pub open spec fn template_extension(ext: Seq<char>) -> bool {
    let e = seq_ascii_lower(ext);
    e == "json"@ || e == "yaml"@ || e == "yml"@
}

/// The file name has a template extension (`.json`, `.yaml`, `.yml`, in any
/// case).
pub open spec fn template_file_name(name: Seq<char>) -> bool {
    match file_extension(name) {
        Some(e) => template_extension(e),
        None => false,
    }
}

fn is_template_ext(ext: &str) -> (r: bool)
    ensures
        r == template_extension(ext@),
{
    let e = to_ascii_lowercase(ext);
    str_eq(e.as_str(), "json") || str_eq(e.as_str(), "yaml") || str_eq(e.as_str(), "yml")
}

/// The file name `name` has a template extension.
pub fn is_template_extension(name: &str) -> (r: bool)
    ensures
        r == template_file_name(name@),
{
    match extension_of(name) {
        Some(e) => is_template_ext(e.as_str()),
        None => false,
    }
}

/// A directory holds a template when it has at least one template file.
pub fn is_template_dir(is_dir: bool, template_files: usize) -> (r: bool)
    ensures
        r == (is_dir && template_files > 0),
{
    is_dir && template_files > 0
}

/// `a` joined with the relative path `b` (`Path::join`): `b` when `a` is
/// empty or `b` is absolute, otherwise the two separated by one `/`.
pub open spec fn join_path(a: Seq<char>, b: Seq<char>) -> Seq<char> {
    if a.len() == 0 || (b.len() > 0 && b[0] == '/') {
        b
    } else if a.last() == '/' {
        a + b
    } else {
        a + seq!['/'] + b
    }
}

/// `a` joined with `b`.
pub fn join(a: &str, b: &str) -> (r: String)
    ensures
        r@ == join_path(a@, b@),
{
    let ac = crate::strings::chars_of(a);
    let bc = crate::strings::chars_of(b);
    if ac.len() == 0 || (bc.len() > 0 && bc[0] == '/') {
        to_owned_string(b)
    } else if ac[ac.len() - 1] == '/' {
        concat(a, b)
    } else {
        proof {
            reveal_strlit("/");
            assert("/"@ =~= seq!['/']);
        }
        concat3(a, "/", b)
    }
}

/// The directory of templates inside the configuration directory.
pub open spec fn template_dir_path(config_dir: Seq<char>) -> Seq<char> {
    join_path(config_dir, "template.d"@)
}

/// The file `<name>.<ext>` in the template directory.
pub open spec fn template_file_path(config_dir: Seq<char>, name: Seq<char>, ext: Seq<char>) -> Seq<
    char,
> {
    join_path(template_dir_path(config_dir), name + "."@ + ext)
}

/// The fragment directory `<name>.d` in the template directory.
pub open spec fn fragment_dir_path(config_dir: Seq<char>, name: Seq<char>) -> Seq<char> {
    join_path(template_dir_path(config_dir), name + ".d"@)
}

/// The template directory of a configuration directory.
pub fn template_dir(config_dir: &str) -> (r: String)
    ensures
        r@ == template_dir_path(config_dir@),
{
    join(config_dir, "template.d")
}

/// The path of template file `<name>.<ext>`.
pub fn template_file(config_dir: &str, name: &str, ext: &str) -> (r: String)
    ensures
        r@ == template_file_path(config_dir@, name@, ext@),
{
    let dir = template_dir(config_dir);
    let file = concat3(name, ".", ext);
    join(dir.as_str(), file.as_str())
}

/// The path of the fragment directory `<name>.d`.
pub fn fragment_dir(config_dir: &str, name: &str) -> (r: String)
    ensures
        r@ == fragment_dir_path(config_dir@, name@),
{
    let dir = template_dir(config_dir);
    let d = concat(name, ".d");
    join(dir.as_str(), d.as_str())
}

/// What the file system shows of the candidates for a template name.
pub struct TemplateProbe {
    /// `<name>.json` is a file.
    pub json_file: bool,
    /// `<name>.yaml` is a file.
    pub yaml_file: bool,
    /// `<name>.yml` is a file.
    pub yml_file: bool,
    /// `<name>.d` is a directory.
    pub dir_exists: bool,
    /// Number of template files in `<name>.d`.
    pub dir_template_files: usize,
}

/// The first existing template file, in the order json, yaml, yml.
pub open spec fn first_template_file(config_dir: Seq<char>, name: Seq<char>, p: TemplateProbe) -> Option<
    Seq<char>,
> {
    if p.json_file {
        Some(template_file_path(config_dir, name, "json"@))
    } else if p.yaml_file {
        Some(template_file_path(config_dir, name, "yaml"@))
    } else if p.yml_file {
        Some(template_file_path(config_dir, name, "yml"@))
    } else {
        None
    }
}

/// The model of a template error's kind and paths.
pub enum SourceOutcome {
    File(Seq<char>),
    Directory(Seq<char>),
    Ambiguous(Seq<char>, Seq<char>, Seq<char>),
    EmptyDir(Seq<char>),
    Other,
}

/// The model of the result of resolving a template name.
pub open spec fn source_outcome(r: Result<TemplateSource, TemplateError>) -> SourceOutcome {
    match r {
        Ok(TemplateSource::File(p)) => SourceOutcome::File(p@),
        Ok(TemplateSource::Directory(p)) => SourceOutcome::Directory(p@),
        Err(TemplateError::AmbiguousTemplate { name, file_path, dir_path }) => SourceOutcome::Ambiguous(
            name@,
            file_path@,
            dir_path@,
        ),
        Err(TemplateError::EmptyTemplateDir { path }) => SourceOutcome::EmptyDir(path@),
        _ => SourceOutcome::Other,
    }
}

/// How a template name resolves: a file and a directory of the same name are
/// ambiguous; a directory needs template files; with neither, the `.yml` file
/// is named (and fails to load later).
pub open spec fn resolve_spec(config_dir: Seq<char>, name: Seq<char>, p: TemplateProbe) -> SourceOutcome {
    let dir = fragment_dir_path(config_dir, name);
    match first_template_file(config_dir, name, p) {
        Some(f) => if p.dir_exists {
            SourceOutcome::Ambiguous(name, f, dir)
        } else {
            SourceOutcome::File(f)
        },
        None => if p.dir_exists {
            if p.dir_template_files == 0 {
                SourceOutcome::EmptyDir(dir)
            } else {
                SourceOutcome::Directory(dir)
            }
        } else {
            SourceOutcome::File(template_file_path(config_dir, name, "yml"@))
        },
    }
}

/// Resolves a template name to its file or fragment directory, given what
/// the file system shows of the candidates.
pub fn resolve_template_source(config_dir: &str, name: &str, probe: &TemplateProbe) -> (r: Result<
    TemplateSource,
    TemplateError,
>)
    ensures
        source_outcome(r) == resolve_spec(config_dir@, name@, *probe),
{
    let dir_path = fragment_dir(config_dir, name);
    let file_path = if probe.json_file {
        Some(template_file(config_dir, name, "json"))
    } else if probe.yaml_file {
        Some(template_file(config_dir, name, "yaml"))
    } else if probe.yml_file {
        Some(template_file(config_dir, name, "yml"))
    } else {
        None
    };
    match file_path {
        Some(file_path) => {
            if probe.dir_exists {
                Err(TemplateError::AmbiguousTemplate { name: to_owned_string(name), file_path, dir_path })
            } else {
                Ok(TemplateSource::File(file_path))
            }
        },
        None => {
            if probe.dir_exists {
                if probe.dir_template_files == 0 {
                    Err(TemplateError::EmptyTemplateDir { path: dir_path })
                } else {
                    Ok(TemplateSource::Directory(dir_path))
                }
            } else {
                Ok(TemplateSource::File(template_file(config_dir, name, "yml")))
            }
        },
    }
}

/// Resolves a template argument: a name is resolved in the configuration
/// directory, anything else is taken as a file path.
pub fn resolve_template_source_allowing_path(
    config_dir: &str,
    template: &str,
    probe: &TemplateProbe,
) -> (r: Result<TemplateSource, TemplateError>)
    ensures
        names_template(template@) ==> source_outcome(r) == resolve_spec(
            config_dir@,
            template@,
            *probe,
        ),
        !names_template(template@) ==> source_outcome(r) == SourceOutcome::File(template@),
{
    if should_resolve_template_name(template) {
        resolve_template_source(config_dir, template, probe)
    } else {
        Ok(TemplateSource::File(to_owned_string(template)))
    }
}

/// The last component of a path: the text after its last `/`.
pub open spec fn last_component(path: Seq<char>) -> Seq<char>
    decreases path.len(),
{
    if path.len() == 0 {
        path
    } else if path.last() == '/' {
        Seq::empty()
    } else {
        last_component(path.drop_last()).push(path.last())
    }
}

/// The last component of `path`.
pub fn file_name_of(path: &str) -> (r: String)
    ensures
        r@ == last_component(path@),
{
    let cs = crate::strings::chars_of(path);
    let mut i: usize = cs.len();
    proof {
        assert(path@.subrange(0, i as int) =~= path@);
        assert(path@.subrange(i as int, path@.len() as int) =~= Seq::<char>::empty());
        assert(last_component(path@) + Seq::<char>::empty() =~= last_component(path@));
    }
    while i > 0 && cs[i - 1] != '/'
        invariant
            i <= cs.len(),
            cs@ == path@,
            last_component(path@) == last_component(path@.subrange(0, i as int)) + path@.subrange(
                i as int,
                path@.len() as int,
            ),
        decreases i,
    {
        proof {
            let pre = path@.subrange(0, i as int);
            assert(pre.drop_last() =~= path@.subrange(0, i - 1));
            assert(pre.last() == path@[i - 1]);
            assert(last_component(pre) == last_component(path@.subrange(0, i - 1)).push(path@[i - 1]));
            assert(path@.subrange(i - 1, path@.len() as int) =~= seq![path@[i - 1]] + path@.subrange(
                i as int,
                path@.len() as int,
            ));
            assert(last_component(path@.subrange(0, i - 1)).push(path@[i - 1]) + path@.subrange(
                i as int,
                path@.len() as int,
            ) =~= last_component(path@.subrange(0, i - 1)) + path@.subrange(i - 1, path@.len() as int));
        }
        i = i - 1;
    }
    proof {
        let pre = path@.subrange(0, i as int);
        if i > 0 {
            assert(pre.last() == '/');
        }
        assert(last_component(pre) =~= Seq::<char>::empty());
    }
    let rest = crate::strings::slice_chars(&cs, i, cs.len());
    crate::strings::string_from_chars(rest.as_slice())
}

/// The format a template path's extension names.
pub open spec fn format_spec(path: Seq<char>) -> Result<TemplateFormat, Seq<char>> {
    match file_extension(last_component(path)) {
        Some(e) => {
            let l = seq_ascii_lower(e);
            if l == "json"@ {
                Ok(TemplateFormat::Json)
            } else if l == "yaml"@ || l == "yml"@ {
                Ok(TemplateFormat::Yaml)
            } else {
                Err(l)
            }
        },
        None => Err("<none>"@),
    }
}

/// A template file about to be loaded.
pub struct TemplateLoader {
    path: String,
}

impl TemplateLoader {
    /// The path of the template.
    pub closed spec fn path_view(&self) -> Seq<char> {
        self.path@
    }

    /// A loader for the template at `path`.
    pub fn from_path(path: &str) -> (r: Self)
        ensures
            r.path_view() == path@,
    {
        TemplateLoader { path: to_owned_string(path) }
    }

    /// The path of the template.
    pub fn path(&self) -> (r: &String)
        ensures
            r@ == self.path_view(),
    {
        &self.path
    }

    /// The format named by the extension: `.json` is JSON, `.yaml` and `.yml`
    /// are YAML (without case); any other extension, or none, is refused.
    pub fn format(&self) -> (r: Result<TemplateFormat, TemplateError>)
        ensures
            match format_spec(self.path_view()) {
                Ok(f) => r == Ok::<TemplateFormat, TemplateError>(f),
                Err(ext) => r matches Err(TemplateError::UnsupportedExtension { path, extension })
                    && path@ == self.path_view() && extension@ == ext,
            },
    {
        let name = file_name_of(self.path.as_str());
        match extension_of(name.as_str()) {
            Some(e) => {
                let l = to_ascii_lowercase(e.as_str());
                if str_eq(l.as_str(), "json") {
                    Ok(TemplateFormat::Json)
                } else if str_eq(l.as_str(), "yaml") || str_eq(l.as_str(), "yml") {
                    Ok(TemplateFormat::Yaml)
                } else {
                    Err(TemplateError::UnsupportedExtension { path: self.path.clone(), extension: l })
                }
            },
            None => Err(
                TemplateError::UnsupportedExtension {
                    path: self.path.clone(),
                    extension: to_owned_string("<none>"),
                },
            ),
        }
    }
}

// ---------------------------------------------------------------------------
// Merging fragments
// ---------------------------------------------------------------------------

/// Merges `overlay` into `base` in place: objects are merged member by
/// member, recursively; arrays, scalars and null in the overlay replace the
/// base.
pub fn deep_merge(base: &mut JsonValue, overlay: &JsonValue)
    requires
        old(base)@.wf(),
        overlay@.wf(),
    ensures
        final(base)@ == merge(old(base)@, overlay@),
        final(base)@.wf(),
{
    let r = merged(base, overlay);
    *base = r;
}

/// The fragments merged in order, starting from the first.
pub open spec fn merge_all(first: Json, rest: Seq<Json>) -> Json
    decreases rest.len(),
{
    if rest.len() == 0 {
        first
    } else {
        merge(merge_all(first, rest.drop_last()), rest.last())
    }
}

/// The values of loaded fragments, all of which loaded.
pub open spec fn loaded_values(s: Seq<Result<JsonValue, TemplateError>>) -> Seq<Json> {
    Seq::new(s.len(), |i: int| s[i]->Ok_0@)
}

/// Loads a template directory from its fragments, loaded in file-name
/// order: an empty directory is an error, the first fragment that failed to
/// load gives its error, and otherwise the fragments are merged in order
/// onto the first.
#[verifier::loop_isolation(false)]
pub fn load_template_dir(dir: &str, loaded: Vec<Result<JsonValue, TemplateError>>) -> (r: Result<JsonValue, TemplateError>)
    requires
        forall|i: int| 0 <= i < loaded@.len() ==> (#[trigger] loaded@[i] matches Ok(v) ==> v@.wf()),
    ensures
        loaded@.len() == 0 ==> (r matches Err(TemplateError::EmptyTemplateDir { path }) && path@ == dir@),
        (exists|i: int| 0 <= i < loaded@.len() && #[trigger] loaded@[i] is Err) ==> exists|i: int|
            0 <= i < loaded@.len() && r == #[trigger] loaded@[i] && forall|k: int| 0 <= k < i ==> loaded@[k] is Ok,
        loaded@.len() > 0 && (forall|i: int| 0 <= i < loaded@.len() ==> #[trigger] loaded@[i] is Ok) ==> (r matches Ok(v)
            && v@ == merge_all(loaded@[0]->Ok_0@, loaded_values(loaded@).subrange(1, loaded@.len() as int))),
{
    let ghost all = loaded@;
    let n = loaded.len();
    if n == 0 {
        return Err(TemplateError::EmptyTemplateDir { path: to_owned_string(dir) });
    }
    let mut rest = loaded;
    let first = rest.remove(0);
    let mut merged = match first {
        Ok(v) => v,
        Err(e) => {
            return Err(e);
        },
    };
    proof {
        assert(loaded_values(all).subrange(1, 1) =~= Seq::<Json>::empty());
    }
    let mut i: usize = 1;
    while i < n
        invariant
            1 <= i <= n,
            n == all.len(),
            rest@ == all.subrange(i as int, n as int),
            forall|k: int| 0 <= k < i ==> all[k] is Ok,
            forall|k: int| 0 <= k < all.len() ==> (#[trigger] all[k] matches Ok(v) ==> v@.wf()),
            merged@ == merge_all(all[0]->Ok_0@, loaded_values(all).subrange(1, i as int)),
            merged@.wf(),
        decreases n - i,
    {
        let next = rest.remove(0);
        proof {
            assert(next == all[i as int]);
            assert(rest@ =~= all.subrange(i + 1, n as int));
        }
        match next {
            Ok(v) => {
                deep_merge(&mut merged, &v);
                proof {
                    let pre = loaded_values(all).subrange(1, i as int);
                    let post = loaded_values(all).subrange(1, i + 1);
                    assert(post.drop_last() =~= pre);
                    assert(post.last() == v@);
                }
            },
            Err(e) => {
                proof {
                    assert(all[i as int] == Err::<JsonValue, TemplateError>(e));
                }
                return Err(e);
            },
        }
        i = i + 1;
    }
    Ok(merged)
}

// ---------------------------------------------------------------------------
// The mapping of a palette
// ---------------------------------------------------------------------------

pub open spec fn agent_model_key(a: Seq<char>) -> Seq<char> {
    "agent-"@ + a + "-model"@
}

pub open spec fn variant_key(a: Seq<char>) -> Seq<char> {
    a + "-variant"@
}

pub open spec fn agent_variant_key(a: Seq<char>) -> Seq<char> {
    "agent-"@ + a + "-variant"@
}

pub open spec fn effort_key(a: Seq<char>) -> Seq<char> {
    "agent-"@ + a + "-reasoning-effort"@
}

pub open spec fn verbosity_key(a: Seq<char>) -> Seq<char> {
    "agent-"@ + a + "-text-verbosity"@
}

/// The mapping entries of agent `a`: its name and `agent-<a>-model` give the
/// model; a variant gives `<a>-variant` and `agent-<a>-variant`; reasoning
/// `true` gives effort `high`, detailed reasoning its effort and text
/// verbosity.
pub open spec fn put_agent(acc: Entries, a: Seq<char>, c: AgentModel) -> Entries {
    let m1 = entries_put(entries_put(acc, a, Json::Str(c.model)), agent_model_key(a), Json::Str(c.model));
    let m2 = match c.variant {
        Some(v) => entries_put(entries_put(m1, variant_key(a), Json::Str(v)), agent_variant_key(a), Json::Str(v)),
        None => m1,
    };
    match c.reasoning {
        Some(ReasoningModel::Bool(b)) => if b {
            entries_put(m2, effort_key(a), Json::Str("high"@))
        } else {
            m2
        },
        Some(ReasoningModel::Object(cfg)) => {
            let m3 = match cfg.effort {
                Some(e) => entries_put(m2, effort_key(a), Json::Str(e)),
                None => m2,
            };
            match cfg.text_verbosity {
                Some(t) => entries_put(m3, verbosity_key(a), Json::Str(t)),
                None => m3,
            }
        },
        None => m2,
    }
}

/// The entries of all agents, in order, over `acc`.
pub open spec fn put_agents(acc: Entries, agents: Seq<(Seq<char>, AgentModel)>) -> Entries
    decreases agents.len(),
{
    if agents.len() == 0 {
        acc
    } else {
        put_agent(put_agents(acc, agents.drop_last()), agents.last().0, agents.last().1)
    }
}

/// The placeholder mapping of a palette: its mapping entries, then the
/// entries generated for each agent in name order (later entries win).
pub open spec fn mapping_of(p: PaletteModel) -> Entries {
    put_agents(put_all(Seq::empty(), p.mapping), p.agents)
}

/// The lengths of an agent's generated keys differ, so they are distinct.
proof fn lemma_key_lengths(a: Seq<char>)
    ensures
        agent_model_key(a).len() == a.len() + 12,
        variant_key(a).len() == a.len() + 8,
        agent_variant_key(a).len() == a.len() + 14,
        effort_key(a).len() == a.len() + 23,
        verbosity_key(a).len() == a.len() + 21,
{
    reveal_strlit("agent-");
    reveal_strlit("-model");
    reveal_strlit("-variant");
    reveal_strlit("-reasoning-effort");
    reveal_strlit("-text-verbosity");
}

/// The value key `k` has after the entries of agent `b`: its generated keys
/// get the agent's values, every other key keeps its value.
spec fn put_agent_at(acc: Entries, b: Seq<char>, c: AgentModel, k: Seq<char>) -> Option<Json> {
    if k == b || k == agent_model_key(b) {
        Some(Json::Str(c.model))
    } else if k == variant_key(b) || k == agent_variant_key(b) {
        match c.variant {
            Some(v) => Some(Json::Str(v)),
            None => entries_get(acc, k),
        }
    } else if k == effort_key(b) {
        match c.reasoning {
            Some(ReasoningModel::Bool(true)) => Some(Json::Str("high"@)),
            Some(ReasoningModel::Object(cfg)) => match cfg.effort {
                Some(e) => Some(Json::Str(e)),
                None => entries_get(acc, k),
            },
            _ => entries_get(acc, k),
        }
    } else if k == verbosity_key(b) {
        match c.reasoning {
            Some(ReasoningModel::Object(cfg)) => match cfg.text_verbosity {
                Some(t) => Some(Json::Str(t)),
                None => entries_get(acc, k),
            },
            _ => entries_get(acc, k),
        }
    } else {
        entries_get(acc, k)
    }
}

proof fn lemma_put1(e: Entries, k: Seq<char>, v: Json, m: Seq<char>)
    requires
        keys_sorted(e),
    ensures
        keys_sorted(entries_put(e, k, v)),
        entries_get(entries_put(e, k, v), m) == if m == k {
            Some(v)
        } else {
            entries_get(e, m)
        },
{
    lemma_put_sorted(e, k, v);
}

/// What the entries of one agent do to key `k`.
proof fn lemma_put_agent(acc: Entries, b: Seq<char>, c: AgentModel, k: Seq<char>)
    requires
        keys_sorted(acc),
    ensures
        keys_sorted(put_agent(acc, b, c)),
        entries_get(put_agent(acc, b, c), k) == put_agent_at(acc, b, c, k),
        !generates(b, k) ==> entries_get(put_agent(acc, b, c), k) == entries_get(acc, k),
        entries_get(acc, k) is Some ==> entries_get(put_agent(acc, b, c), k) is Some,
{
    lemma_key_lengths(b);
    let a0 = entries_put(acc, b, Json::Str(c.model));
    lemma_put1(acc, b, Json::Str(c.model), k);
    let m1 = entries_put(a0, agent_model_key(b), Json::Str(c.model));
    lemma_put1(a0, agent_model_key(b), Json::Str(c.model), k);
    let m2 = match c.variant {
        Some(v) => entries_put(entries_put(m1, variant_key(b), Json::Str(v)), agent_variant_key(b), Json::Str(v)),
        None => m1,
    };
    if let Some(v) = c.variant {
        lemma_put1(m1, variant_key(b), Json::Str(v), k);
        lemma_put1(entries_put(m1, variant_key(b), Json::Str(v)), agent_variant_key(b), Json::Str(v), k);
    }
    match c.reasoning {
        Some(ReasoningModel::Bool(x)) => {
            if x {
                lemma_put1(m2, effort_key(b), Json::Str("high"@), k);
            }
        },
        Some(ReasoningModel::Object(cfg)) => {
            let m3 = match cfg.effort {
                Some(e) => entries_put(m2, effort_key(b), Json::Str(e)),
                None => m2,
            };
            if let Some(e) = cfg.effort {
                lemma_put1(m2, effort_key(b), Json::Str(e), k);
            }
            if let Some(t) = cfg.text_verbosity {
                lemma_put1(m3, verbosity_key(b), Json::Str(t), k);
            }
        },
        None => {},
    }
}

/// The entries of all agents keep every key already set.
proof fn lemma_put_agents_keeps(acc: Entries, agents: Seq<(Seq<char>, AgentModel)>, k: Seq<char>)
    requires
        keys_sorted(acc),
    ensures
        keys_sorted(put_agents(acc, agents)),
        entries_get(acc, k) is Some ==> entries_get(put_agents(acc, agents), k) is Some,
    decreases agents.len(),
{
    if agents.len() > 0 {
        lemma_put_agents_keeps(acc, agents.drop_last(), k);
        lemma_put_agent(put_agents(acc, agents.drop_last()), agents.last().0, agents.last().1, k);
    }
}

/// A key that only agent `i` generates has the value that agent's entries
/// give it.
proof fn lemma_put_agents_only(acc: Entries, agents: Seq<(Seq<char>, AgentModel)>, i: int, k: Seq<char>)
    requires
        keys_sorted(acc),
        0 <= i < agents.len(),
        forall|j: int| 0 <= j < agents.len() && j != i ==> !generates(#[trigger] agents[j].0, k),
    ensures
        keys_sorted(put_agents(acc, agents.subrange(0, i))),
        entries_get(put_agents(acc, agents), k) == entries_get(
            put_agent(put_agents(acc, agents.subrange(0, i)), agents[i].0, agents[i].1),
            k,
        ),
    decreases agents.len(),
{
    let d = agents.drop_last();
    lemma_put_agents_keeps(acc, agents.subrange(0, i), k);
    if i == agents.len() - 1 {
        assert(d =~= agents.subrange(0, i));
        assert(agents.last() == agents[i]);
    } else {
        assert forall|j: int| 0 <= j < d.len() && j != i implies !generates(#[trigger] d[j].0, k) by {
            assert(d[j] == agents[j]);
        }
        lemma_put_agents_only(acc, d, i, k);
        assert(d.subrange(0, i) =~= agents.subrange(0, i));
        assert(d[i] == agents[i]);
        lemma_put_agents_keeps(acc, d, k);
        assert(agents.last() == agents[agents.len() - 1]);
        lemma_put_agent(put_agents(acc, d), agents.last().0, agents.last().1, k);
    }
}

/// Each placeholder an agent generates, when no other agent generates it,
/// holds that agent's value in the palette's mapping: the model for the
/// agent's name and `agent-<a>-model`; the variant for `<a>-variant` and
/// `agent-<a>-variant`; effort `high` for reasoning `true`, or the detailed
/// effort, for `agent-<a>-reasoning-effort`; the detailed text verbosity for
/// `agent-<a>-text-verbosity`. A field the agent lacks leaves the palette's
/// own mapping entry, if any.
pub proof fn law_agent_placeholders(p: PaletteModel, a: Seq<char>, k: Seq<char>)
    requires
        palette_wf(p),
        has_key(p.agents, a),
        generates(a, k),
        forall|j: int| 0 <= j < p.agents.len() && p.agents[j].0 != a ==> !generates(#[trigger] p.agents[j].0, k),
    ensures
        ({
            let c = entries_get(p.agents, a)->0;
            let m = mapping_of(p);
            &&& (k == a || k == agent_model_key(a)) ==> entries_get(m, k) == Some(Json::Str(c.model))
            &&& (k == variant_key(a) || k == agent_variant_key(a)) ==> entries_get(m, k) == match c.variant {
                Some(v) => Some(Json::Str(v)),
                None => entries_get(p.mapping, k),
            }
            &&& k == effort_key(a) ==> entries_get(m, k) == match c.reasoning {
                Some(ReasoningModel::Bool(true)) => Some(Json::Str("high"@)),
                Some(ReasoningModel::Object(cfg)) => match cfg.effort {
                    Some(e) => Some(Json::Str(e)),
                    None => entries_get(p.mapping, k),
                },
                _ => entries_get(p.mapping, k),
            }
            &&& k == verbosity_key(a) ==> entries_get(m, k) == match c.reasoning {
                Some(ReasoningModel::Object(cfg)) => match cfg.text_verbosity {
                    Some(t) => Some(Json::Str(t)),
                    None => entries_get(p.mapping, k),
                },
                _ => entries_get(p.mapping, k),
            }
        }),
{
    lemma_wf_members(Json::Object(p.mapping));
    let base = put_all(Seq::empty(), p.mapping);
    crate::substitute::lemma_put_all(Seq::empty(), p.mapping);
    let i = crate::keyed::key_index(p.agents, a);
    lemma_key_index_found(p.agents, a);
    crate::keyed::lemma_key_index(p.agents, a, i);
    assert forall|j: int| 0 <= j < p.agents.len() && j != i implies !generates(#[trigger] p.agents[j].0, k) by {
        if p.agents[j].0 == a {
            crate::keyed::lemma_sorted_unique(p.agents, i, j);
        }
    }
    lemma_put_agents_only(base, p.agents, i, k);
    let pre = put_agents(base, p.agents.subrange(0, i));
    lemma_put_agent(pre, a, p.agents[i].1, k);
    // the agents before `i` do not generate `k`
    let before_i = p.agents.subrange(0, i);
    assert forall|j: int| 0 <= j < before_i.len() implies !generates(#[trigger] before_i[j].0, k) by {
        assert(before_i[j] == p.agents[j]);
    }
    lemma_put_agents_none(base, before_i, k);
    assert(entries_get(base, k) == entries_get(p.mapping, k)) by {
        assert(!has_key(Seq::<(Seq<char>, Json)>::empty(), k));
    }
    lemma_key_lengths(a);
    assert(entries_get(pre, k) == entries_get(p.mapping, k));
    assert(entries_get(p.agents, a) == Some(p.agents[i].1));
    assert(mapping_of(p) == put_agents(base, p.agents));
    assert(entries_get(mapping_of(p), k) == put_agent_at(pre, a, p.agents[i].1, k));
}

/// Keys no agent generates keep their value.
proof fn lemma_put_agents_none(acc: Entries, agents: Seq<(Seq<char>, AgentModel)>, k: Seq<char>)
    requires
        keys_sorted(acc),
    ensures
        (forall|j: int| 0 <= j < agents.len() ==> !generates(#[trigger] agents[j].0, k)) ==> entries_get(
            put_agents(acc, agents),
            k,
        ) == entries_get(acc, k),
    decreases agents.len(),
{
    if agents.len() > 0 {
        let d = agents.drop_last();
        lemma_put_agents_none(acc, d, k);
        lemma_put_agents_keeps(acc, d, k);
        lemma_put_agent(put_agents(acc, d), agents.last().0, agents.last().1, k);
        if forall|j: int| 0 <= j < agents.len() ==> !generates(#[trigger] agents[j].0, k) {
            assert forall|j: int| 0 <= j < d.len() implies !generates(#[trigger] d[j].0, k) by {
                assert(d[j] == agents[j]);
            }
            assert(!generates(agents[agents.len() - 1].0, k));
        }
    }
}

fn put_text(m: &mut JsonMap, k: String, v: &String)
    requires
        keys_sorted(old(m)@),
    ensures
        final(m)@ == entries_put(old(m)@, k@, Json::Str(v@)),
        keys_sorted(final(m)@),
{
    m.insert(k, JsonValue::String(v.clone()));
}

fn put_agent_entries(m: &mut JsonMap, a: &String, c: &AgentConfig)
    requires
        keys_sorted(old(m)@),
    ensures
        final(m)@ == put_agent(old(m)@, a@, c@),
        keys_sorted(final(m)@),
{
    put_text(m, a.clone(), &c.model);
    put_text(m, concat3("agent-", a.as_str(), "-model"), &c.model);
    if let Some(v) = &c.variant {
        put_text(m, concat(a.as_str(), "-variant"), v);
        put_text(m, concat3("agent-", a.as_str(), "-variant"), v);
    }
    match &c.reasoning {
        Some(Reasoning::Bool(b)) => {
            if *b {
                let high = to_owned_string("high");
                put_text(m, concat3("agent-", a.as_str(), "-reasoning-effort"), &high);
            }
        },
        Some(Reasoning::Object(cfg)) => {
            if let Some(e) = &cfg.effort {
                put_text(m, concat3("agent-", a.as_str(), "-reasoning-effort"), e);
            }
            if let Some(t) = &cfg.text_verbosity {
                put_text(m, concat3("agent-", a.as_str(), "-text-verbosity"), t);
            }
        },
        None => {},
    }
}

/// The placeholder mapping of `palette`.
pub fn build_mapping(palette: &Palette) -> (mapping: JsonMap)
    ensures
        mapping@ == mapping_of(palette@),
        keys_sorted(mapping@),
{
    let mut m = JsonMap::new();
    let mut i: usize = 0;
    while i < palette.mapping.entries.len()
        invariant
            i <= palette.mapping.entries.len(),
            m@ == put_all(Seq::empty(), palette.mapping@.subrange(0, i as int)),
            keys_sorted(m@),
        decreases palette.mapping.entries.len() - i,
    {
        proof {
            let next = palette.mapping@.subrange(0, i + 1);
            assert(next.drop_last() =~= palette.mapping@.subrange(0, i as int));
        }
        m.insert(palette.mapping.entries[i].0.clone(), palette.mapping.entries[i].1.deep_clone());
        i = i + 1;
    }
    proof {
        assert(palette.mapping@.subrange(0, palette.mapping@.len() as int) =~= palette.mapping@);
    }
    let ghost base = m@;
    let mut j: usize = 0;
    while j < palette.agents.entries.len()
        invariant
            j <= palette.agents.entries.len(),
            base == put_all(Seq::empty(), palette.mapping@),
            m@ == put_agents(base, palette.agents@.subrange(0, j as int)),
            keys_sorted(m@),
        decreases palette.agents.entries.len() - j,
    {
        proof {
            let next = palette.agents@.subrange(0, j + 1);
            assert(next.drop_last() =~= palette.agents@.subrange(0, j as int));
        }
        put_agent_entries(&mut m, &palette.agents.entries[j].0, &palette.agents.entries[j].1);
        j = j + 1;
    }
    proof {
        assert(palette.agents@.subrange(0, palette.agents@.len() as int) =~= palette.agents@);
    }
    m
}

// ---------------------------------------------------------------------------
// Model aliases
// ---------------------------------------------------------------------------

/// The alias of a `model` value that is exactly one placeholder.
pub open spec fn alias_of(model: Seq<char>) -> Option<Seq<char>> {
    let hits = pattern_scan(EXACT_PLACEHOLDER_PATTERN@, model).1;
    if hits.len() > 0 {
        Some(seq_trim(hits[0].1))
    } else {
        None
    }
}

/// `agent-<name>-model` gives `<name>` when it is not empty.
pub open spec fn stripped_alias(alias: Seq<char>) -> Option<Seq<char>> {
    if seq_starts_with(alias, "agent-"@) {
        let rest = alias.subrange("agent-"@.len() as int, alias.len() as int);
        if seq_ends_with(rest, "-model"@) {
            let name = rest.subrange(0, rest.len() - "-model"@.len());
            if name.len() > 0 {
                Some(name)
            } else {
                None
            }
        } else {
            None
        }
    } else {
        None
    }
}

/// The agent an alias names: itself when it is an agent, else the agent of
/// `agent-<name>-model`.
pub open spec fn resolve_alias(alias: Seq<char>, agents: Seq<(Seq<char>, AgentModel)>) -> Option<
    Seq<char>,
> {
    if has_key(agents, alias) {
        Some(alias)
    } else {
        match stripped_alias(alias) {
            Some(n) => if has_key(agents, n) {
                Some(n)
            } else {
                None
            },
            None => None,
        }
    }
}

/// An agent object with the settings of agent `c` copied in.
pub open spec fn aliased_agent(o: Entries, c: AgentModel) -> Entries {
    let o1 = entries_put(o, "model"@, Json::Str(c.model));
    let o2 = match c.variant {
        Some(v) => entries_put(o1, "variant"@, Json::Str(v)),
        None => o1,
    };
    match c.reasoning {
        Some(ReasoningModel::Bool(b)) => if b {
            entries_put(o2, "reasoningEffort"@, Json::Str("high"@))
        } else {
            o2
        },
        Some(ReasoningModel::Object(cfg)) => {
            let o3 = match cfg.effort {
                Some(e) => entries_put(o2, "reasoningEffort"@, Json::Str(e)),
                None => o2,
            };
            match cfg.text_verbosity {
                Some(t) => entries_put(o3, "textVerbosity"@, Json::Str(t)),
                None => o3,
            }
        },
        None => o2,
    }
}

/// An agent object whose model is an alias of a palette agent gets that
/// agent's model, variant and reasoning; any other value is kept.
pub open spec fn alias_member(v: Json, agents: Seq<(Seq<char>, AgentModel)>) -> Json {
    match v {
        Json::Object(o) => match entries_get(o, "model"@) {
            Some(Json::Str(m)) => match alias_of(m) {
                Some(alias) => match resolve_alias(alias, agents) {
                    Some(name) => Json::Object(aliased_agent(o, entries_get(agents, name)->0)),
                    None => v,
                },
                None => v,
            },
            _ => v,
        },
        _ => v,
    }
}

/// Every agent of an `agent` object with aliases resolved.
pub open spec fn alias_members(e: Entries, agents: Seq<(Seq<char>, AgentModel)>) -> Entries {
    Seq::new(e.len(), |i: int| (e[i].0, alias_member(e[i].1, agents)))
}

/// A template with model aliases resolved in its `agent` object.
pub open spec fn alias_spec(value: Json, p: PaletteModel) -> Json {
    match value {
        Json::Object(top) => match entries_get(top, "agent"@) {
            Some(Json::Object(ag)) => if pattern_compiles(EXACT_PLACEHOLDER_PATTERN@) {
                Json::Object(entries_put(top, "agent"@, Json::Object(alias_members(ag, p.agents))))
            } else {
                value
            },
            _ => value,
        },
        _ => value,
    }
}

fn put_string(o: &mut JsonMap, k: &str, v: &String)
    requires
        keys_sorted(old(o)@),
    ensures
        final(o)@ == entries_put(old(o)@, k@, Json::Str(v@)),
        keys_sorted(final(o)@),
{
    o.insert(to_owned_string(k), JsonValue::String(v.clone()));
}

fn copy_agent_settings(o: &mut JsonMap, c: &AgentConfig)
    requires
        keys_sorted(old(o)@),
    ensures
        final(o)@ == aliased_agent(old(o)@, c@),
        keys_sorted(final(o)@),
{
    put_string(o, "model", &c.model);
    if let Some(v) = &c.variant {
        put_string(o, "variant", v);
    }
    match &c.reasoning {
        Some(Reasoning::Bool(b)) => {
            if *b {
                let high = to_owned_string("high");
                put_string(o, "reasoningEffort", &high);
            }
        },
        Some(Reasoning::Object(cfg)) => {
            if let Some(e) = &cfg.effort {
                put_string(o, "reasoningEffort", e);
            }
            if let Some(t) = &cfg.text_verbosity {
                put_string(o, "textVerbosity", t);
            }
        },
        None => {},
    }
}

fn resolve_alias_name(alias: &String, agents: &KeyedMap<AgentConfig>) -> (r: Option<String>)
    requires
        keys_sorted(agents@),
    ensures
        r matches Some(n) ==> resolve_alias(alias@, agents@) == Some(n@),
        r is None ==> resolve_alias(alias@, agents@) is None,
{
    if agents.contains_key(alias.as_str()) {
        return Some(alias.clone());
    }
    match strip_prefix(alias.as_str(), "agent-") {
        Some(rest) => match strip_suffix(rest.as_str(), "-model") {
            Some(name) => {
                if name.as_str().is_empty() {
                    None
                } else if agents.contains_key(name.as_str()) {
                    Some(name)
                } else {
                    None
                }
            },
            None => None,
        },
        None => None,
    }
}

fn alias_agent_value(v: &JsonValue, palette: &Palette) -> (r: JsonValue)
    requires
        v@.wf(),
        palette_wf(palette@),
        pattern_compiles(EXACT_PLACEHOLDER_PATTERN@),
    ensures
        r@ == alias_member(v@, palette.agents@),
{
    match v {
        JsonValue::Object(o) => {
            proof {
                lemma_object_view(o);
                lemma_wf_members(v@);
            }
            match o.get("model") {
                Some(JsonValue::String(m)) => {
                    let scan = match regex_scan(EXACT_PLACEHOLDER_PATTERN, m.as_str()) {
                        Ok(s) => s,
                        Err(_) => {
                            proof {
                                assert(false);
                            }
                            return v.deep_clone();
                        },
                    };
                    if scan.hits.len() == 0 {
                        return v.deep_clone();
                    }
                    assert(scan@.1[0] == (scan.hits@[0].0@, scan.hits@[0].1@));
                    let alias = trim(scan.hits[0].1.as_str());
                    match resolve_alias_name(&alias, &palette.agents) {
                        Some(name) => {
                            let cfg = palette.agents.get(name.as_str());
                            match cfg {
                                Some(c) => {
                                    let mut o2 = o.deep_clone();
                                    copy_agent_settings(&mut o2, c);
                                    proof {
                                        lemma_object_view(&o2);
                                    }
                                    JsonValue::Object(o2)
                                },
                                None => {
                                    proof {
                                        assert(has_key(palette.agents@, name@));
                                        assert(false);
                                    }
                                    v.deep_clone()
                                },
                            }
                        },
                        None => v.deep_clone(),
                    }
                },
                _ => v.deep_clone(),
            }
        },
        _ => v.deep_clone(),
    }
}

/// Resolves model aliases: an agent whose `model` is exactly `{{name}}`
/// (or `{{agent-<name>-model}}`) for a palette agent gets that agent's
/// model, variant and reasoning settings, before placeholders are
/// substituted.
pub fn apply_alias_models(value: &mut JsonValue, palette: &Palette)
    requires
        old(value)@.wf(),
        palette_wf(palette@),
    ensures
        final(value)@ == alias_spec(old(value)@, palette@),
{
    let r = aliased_value(value, palette);
    *value = r;
}

#[verifier::loop_isolation(false)]
fn aliased_value(value: &JsonValue, palette: &Palette) -> (r: JsonValue)
    requires
        value@.wf(),
        palette_wf(palette@),
    ensures
        r@ == alias_spec(value@, palette@),
{
    match value {
        JsonValue::Object(top) => {
            proof {
                lemma_object_view(top);
                lemma_wf_members(value@);
            }
            match top.get("agent") {
                Some(JsonValue::Object(ag)) => {
                    if regex_check(EXACT_PLACEHOLDER_PATTERN).is_err() {
                        return value.deep_clone();
                    }
                    proof {
                        lemma_object_view(ag);
                        let j = crate::keyed::key_index(top@, "agent"@);
                        assert(top@[j].1.wf());
                        lemma_wf_members(Json::Object(ag@));
                    }
                    let mut out: Vec<(String, JsonValue)> = Vec::new();
                    let mut i: usize = 0;
                    while i < ag.entries.len()
                        invariant
                            i <= ag.entries.len(),
                            pattern_compiles(EXACT_PLACEHOLDER_PATTERN@),
                            (JsonMap { entries: out })@ =~= alias_members(
                                ag@.subrange(0, i as int),
                                palette.agents@,
                            ),
                        decreases ag.entries.len() - i,
                    {
                        assert(ag@[i as int].1.wf());
                        let nv = alias_agent_value(&ag.entries[i].1, palette);
                        let ghost before = (JsonMap { entries: out })@;
                        out.push((ag.entries[i].0.clone(), nv));
                        proof {
                            assert((JsonMap { entries: out })@ =~= before.push((ag@[i as int].0, nv@)));
                            assert(alias_members(ag@.subrange(0, i + 1), palette.agents@) =~= alias_members(
                                ag@.subrange(0, i as int),
                                palette.agents@,
                            ).push((ag@[i as int].0, alias_member(ag@[i as int].1, palette.agents@))));
                        }
                        i = i + 1;
                    }
                    proof {
                        assert(ag@.subrange(0, ag@.len() as int) =~= ag@);
                    }
                    let mut top2 = top.deep_clone();
                    let new_agents = JsonValue::Object(JsonMap { entries: out });
                    proof {
                        lemma_object_view(&JsonMap { entries: out });
                    }
                    top2.insert(to_owned_string("agent"), new_agents);
                    proof {
                        lemma_object_view(&top2);
                    }
                    JsonValue::Object(top2)
                },
                _ => value.deep_clone(),
            }
        },
        _ => value.deep_clone(),
    }
}

// ---------------------------------------------------------------------------
// File-name order
// ---------------------------------------------------------------------------

/// The names never decrease: the order in which the files of a template
/// directory are read and merged.
pub open spec fn names_ordered<T>(s: Seq<(String, T)>) -> bool {
    forall|i: int, j: int| 0 <= i < j < s.len() ==> !seq_lt(#[trigger] s[j].0@, #[trigger] s[i].0@)
}

/// Sorts named items (files and what was read of them) by name, in code
/// point order: the same items, their names never decreasing.
pub fn sort_by_name<T>(items: Vec<(String, T)>) -> (r: Vec<(String, T)>)
    ensures
        names_ordered(r@),
        r@.to_multiset() == items@.to_multiset(),
{
    broadcast use vstd::seq_lib::group_to_multiset_ensures;

    let mut rest = items;
    let mut out: Vec<(String, T)> = Vec::new();
    let ghost all = rest@.to_multiset();
    while rest.len() > 0
        invariant
            names_ordered(out@),
            out@.to_multiset().add(rest@.to_multiset()) == all,
            all == items@.to_multiset(),
        decreases rest.len(),
    {
        let ghost before_rest = rest@;
        let x = rest.remove(0);
        let mut p: usize = 0;
        while p < out.len() && !string_lt(&x.0, &out[p].0)
            invariant
                p <= out@.len(),
                forall|k: int| 0 <= k < p ==> !seq_lt(x.0@, #[trigger] out@[k].0@),
            decreases out.len() - p,
        {
            p = p + 1;
        }
        let ghost old_out = out@;
        proof {
            assert forall|k: int| p <= k < old_out.len() implies !seq_lt(#[trigger] old_out[k].0@, x.0@) by {
                assert(seq_lt(x.0@, old_out[p as int].0@));
                if k > p {
                    assert(!seq_lt(old_out[k].0@, old_out[p as int].0@));
                    if old_out[k].0@ != old_out[p as int].0@ {
                        lemma_seq_lt_total(old_out[k].0@, old_out[p as int].0@);
                        lemma_seq_lt_transitive(x.0@, old_out[p as int].0@, old_out[k].0@);
                    }
                }
                lemma_seq_lt_asymmetric(x.0@, old_out[k].0@);
            }
        }
        out.insert(p, x);
        proof {
            let n = out@;
            assert(n == old_out.insert(p as int, x));
            assert forall|i: int, j: int| 0 <= i < j < n.len() implies !seq_lt(#[trigger] n[j].0@, #[trigger] n[i].0@) by {
                if j < p {
                    assert(n[i] == old_out[i] && n[j] == old_out[j]);
                } else if j == p {
                    assert(n[i] == old_out[i] && n[j] == x);
                } else if i == p {
                    assert(n[i] == x && n[j] == old_out[j - 1]);
                } else if i < p {
                    assert(n[i] == old_out[i] && n[j] == old_out[j - 1]);
                } else {
                    assert(n[i] == old_out[i - 1] && n[j] == old_out[j - 1]);
                }
            }
            assert(before_rest.remove(0) == rest@);
            assert(before_rest[0] == x);
            vstd::seq_lib::to_multiset_remove(before_rest, 0);
            vstd::seq_lib::to_multiset_insert(old_out, p as int, x);
            assert(rest@.to_multiset() == before_rest.to_multiset().remove(x));
            assert(n.to_multiset() == old_out.to_multiset().insert(x));
            assert(before_rest.contains(x)) by {
                assert(before_rest[0] == x);
            }
            vstd::seq_lib::to_multiset_contains(before_rest, x);
            assert(before_rest.to_multiset().count(x) > 0);
            assert(n.to_multiset().add(rest@.to_multiset()) =~= old_out.to_multiset().add(before_rest.to_multiset()));
        }
    }
    proof {
        assert(rest@.to_multiset() =~= vstd::multiset::Multiset::empty());
        assert(out@.to_multiset().add(rest@.to_multiset()) =~= out@.to_multiset());
    }
    out
}

// ---------------------------------------------------------------------------
// Listing templates
// ---------------------------------------------------------------------------

/// An entry of the template directory.
pub struct TemplateDirEntry {
    /// The entry's file name.
    pub name: String,
    /// The entry is a directory.
    pub is_dir: bool,
    /// Number of template files in it, for a directory.
    pub template_files: usize,
}

/// `acc` with the template names an entry gives: the stem of a name with a
/// template extension, and `<stem>` of a directory `<stem>.d` that holds a
/// template file.
pub open spec fn add_entry_names(acc: Seq<(Seq<char>, bool)>, name: Seq<char>, is_dir: bool, count: nat) -> Seq<(Seq<char>, bool)> {
    let a = if template_file_name(name) {
        entries_put(acc, file_stem(name), true)
    } else {
        acc
    };
    if is_dir && seq_ends_with(name, ".d"@) && name.len() > 2 && count > 0 {
        entries_put(a, name.subrange(0, name.len() - 2), true)
    } else {
        a
    }
}

/// The template names of the entries, sorted and without repeats.
pub open spec fn template_names(es: Seq<TemplateDirEntry>) -> Seq<(Seq<char>, bool)>
    decreases es.len(),
{
    if es.len() == 0 {
        Seq::empty()
    } else {
        add_entry_names(
            template_names(es.drop_last()),
            es.last().name@,
            es.last().is_dir,
            es.last().template_files as nat,
        )
    }
}

/// The template names found in the entries of the template directory.
pub fn list_templates(entries: &Vec<TemplateDirEntry>) -> (r: Vec<String>)
    ensures
        Seq::new(r@.len(), |i: int| r@[i]@) == Seq::new(
            template_names(entries@).len(),
            |i: int| template_names(entries@)[i].0,
        ),
{
    let mut names: KeyedMap<bool> = KeyedMap::new();
    let mut i: usize = 0;
    proof {
        assert(entries@.subrange(0, 0) =~= Seq::<TemplateDirEntry>::empty());
        reveal_strlit(".d");
    }
    while i < entries.len()
        invariant
            i <= entries@.len(),
            keys_sorted(names@),
            names@ == template_names(entries@.subrange(0, i as int)),
            ".d"@.len() == 2,
        decreases entries.len() - i,
    {
        let e = &entries[i];
        proof {
            let next = entries@.subrange(0, i + 1);
            assert(next.drop_last() =~= entries@.subrange(0, i as int));
            assert(next.last() == *e);
        }
        if is_template_extension(e.name.as_str()) {
            names.insert(stem_of(e.name.as_str()), true);
        }
        if e.is_dir && e.template_files > 0 {
            match strip_suffix(e.name.as_str(), ".d") {
                Some(stem) => {
                    if crate::strings::chars_of(stem.as_str()).len() > 0 {
                        names.insert(stem, true);
                    }
                },
                None => {},
            }
        }
        i = i + 1;
    }
    proof {
        assert(entries@.subrange(0, entries@.len() as int) =~= entries@);
    }
    let r = names.keys();
    proof {
        assert(Seq::new(r@.len(), |i: int| r@[i]@) =~= Seq::new(names@.len(), |i: int| names@[i].0));
    }
    r
}

} // verus!
