//! Validation of templates and palettes.
//!
//! The checks run in this order, each adding findings to one report:
//! palettes (mapping keys that shadow generated aliases), template
//! discovery (unsupported, ambiguous or empty templates), placeholder
//! scanning (malformed placeholders, fragment merge conflicts, unreadable
//! templates), placeholder resolution against every palette and the
//! environment, and, on request, validation of each rendered template
//! against the palette's JSON Schema. A finding is an error, or a warning
//! that strict mode makes an error.
//!
//! The directory listings, the loaded files and the environment are read by
//! the caller and handed over as values.

use vstd::prelude::*;
use crate::config::{
    AgentConfig, AgentModel, ModelConfigs, Palette, PaletteModel, ReasoningModel, Reasoning,
    configs_wf, palette_wf,
};
use crate::json::{
    Json, Entries, JsonValue, merge, json_eq, lemma_object_view, lemma_array_view,
    lemma_wf_members,
};
use crate::keyed::{
    KeyedMap, entries_get, entries_put, has_key, has_entry, key_index, keys_sorted, lemma_put_sorted,
};
use crate::template::{
    merge_all, deep_merge, last_component, file_name_of, template_file_name, is_template_extension,
    join, join_path,
};
use crate::pattern::{Hit, PLACEHOLDER_PATTERN, pattern_compiles, regex_scan};
use crate::strings::{
    seq_starts_with, seq_ends_with, seq_contains_sub, seq_trim, decimal, u64_to_string,
    starts_with, ends_with, contains_str, strip_prefix, strip_suffix, str_eq, trim, concat3,
    to_owned_string, file_stem, file_extension, seq_ascii_lower, stem_of, extension_of,
    to_ascii_lowercase,
};
use crate::substitute::{scan_of, hit_key, subst_value_spec, substitute, string_pairs};
use crate::schema::{SchemaError, schema_spec, schema_check, build_schema, validate_against_schema};
use crate::template::{mapping_of, build_mapping, law_agent_placeholders, agent_model_key, agent_variant_key, effort_key, verbosity_key};
use crate::json::json_text;
use crate::pattern::regex_check;

verus! {

/// Settings of a validation run.
pub struct ValidateOpts {
    /// Glob patterns of the templates to check; none means every template in
    /// `template.d`.
    pub templates: Vec<String>,
    /// The palettes file; `model-configs.yaml` in the config directory when
    /// absent.
    pub palettes_path: Option<String>,
    /// Report warnings as errors.
    pub strict: bool,
    /// Whether `{{env:NAME}}` placeholders are allowed.
    pub env_allow: Option<bool>,
    pub env_mask_logs: Option<bool>,
    /// Also validate rendered templates against the palette schemas.
    pub schema: bool,
}

/// Number of findings of each severity.
#[derive(Debug, Clone, Copy)]
pub struct Counts {
    pub errors: u32,
    pub warnings: u32,
}

/// How serious a finding is.
#[derive(Debug, Clone, Copy, PartialEq, Eq, Structural)]
pub enum Severity {
    Error,
    Warning,
}

/// The label of a severity.
pub open spec fn severity_label(s: Severity) -> Seq<char> {
    match s {
        Severity::Error => "error"@,
        Severity::Warning => "warning"@,
    }
}

impl Severity {
    /// `"error"` or `"warning"`.
    pub fn as_label(self) -> (r: &'static str)
        ensures
            r@ == severity_label(self),
    {
        match self {
            Severity::Error => "error",
            Severity::Warning => "warning",
        }
    }
}

/// The severity of a finding that strict mode makes an error.
pub open spec fn strict_severity(strict: bool) -> Severity {
    if strict {
        Severity::Error
    } else {
        Severity::Warning
    }
}

/// One problem found: where (file and JSON path), what kind, and a message.
#[derive(Debug, Clone)]
pub struct Finding {
    pub file: String,
    pub path: String,
    pub kind: String,
    pub message: String,
    pub severity: Severity,
}

/// The model of a finding: severity, file, path, kind and message.
pub type FindingView = (Severity, Seq<char>, Seq<char>, Seq<char>, Seq<char>);

impl View for Finding {
    type V = FindingView;

    open spec fn view(&self) -> FindingView {
        (self.severity, self.file@, self.path@, self.kind@, self.message@)
    }
}

/// The model of a list of findings.
pub open spec fn findings_model(v: Seq<Finding>) -> Seq<FindingView> {
    Seq::new(v.len(), |i: int| v[i]@)
}

/// The result of a validation.
#[derive(Debug)]
pub struct Report {
    pub counts: Counts,
    pub findings: Vec<Finding>,
}

/// Number of findings of severity `s`.
pub open spec fn count_of(fs: Seq<FindingView>, s: Severity) -> nat
    decreases fs.len(),
{
    if fs.len() == 0 {
        0
    } else {
        count_of(fs.drop_last(), s) + if fs.last().0 == s {
            1nat
        } else {
            0nat
        }
    }
}

/// A count as a `u32`, held at `u32::MAX` when larger.
pub open spec fn capped(n: nat) -> u32 {
    if n <= u32::MAX {
        n as u32
    } else {
        u32::MAX
    }
}

/// Collects findings and keeps the count of each severity.
pub struct ReportBuilder {
    findings: Vec<Finding>,
    errors: u32,
    warnings: u32,
}

fn bump(n: u32) -> (r: u32)
    ensures
        r == if n < u32::MAX {
            (n + 1) as u32
        } else {
            u32::MAX
        },
{
    if n < u32::MAX {
        n + 1
    } else {
        u32::MAX
    }
}

impl ReportBuilder {
    /// The findings collected so far.
    pub closed spec fn items(&self) -> Seq<FindingView> {
        findings_model(self.findings@)
    }

    /// The counts agree with the findings.
    pub closed spec fn wf(&self) -> bool {
        &&& self.errors == capped(count_of(self.items(), Severity::Error))
        &&& self.warnings == capped(count_of(self.items(), Severity::Warning))
    }

    /// An empty report.
    pub fn new() -> (r: Self)
        ensures
            r.wf(),
            r.items() == Seq::<FindingView>::empty(),
    {
        let r = ReportBuilder { findings: Vec::new(), errors: 0, warnings: 0 };
        proof {
            assert(r.items() =~= Seq::<FindingView>::empty());
        }
        r
    }

    /// Adds a finding.
    pub fn push(&mut self, severity: Severity, file: String, path: String, kind: &str, message: String)
        requires
            old(self).wf(),
        ensures
            final(self).wf(),
            final(self).items() == old(self).items().push((severity, file@, path@, kind@, message@)),
    {
        let ghost before = self.items();
        match severity {
            Severity::Error => {
                self.errors = bump(self.errors);
            },
            Severity::Warning => {
                self.warnings = bump(self.warnings);
            },
        }
        self.findings.push(Finding { file, path, kind: to_owned_string(kind), message, severity });
        proof {
            let now = self.items();
            assert(now =~= before.push((severity, file@, path@, kind@, message@)));
            assert(now.drop_last() =~= before);
        }
    }

    /// Adds a warning, or an error in strict mode.
    pub fn warn_or_error(&mut self, strict: bool, file: String, path: String, kind: &str, message: String)
        requires
            old(self).wf(),
        ensures
            final(self).wf(),
            final(self).items() == old(self).items().push(
                (strict_severity(strict), file@, path@, kind@, message@),
            ),
    {
        let severity = if strict {
            Severity::Error
        } else {
            Severity::Warning
        };
        self.push(severity, file, path, kind, message);
    }

    /// The report: the findings in order and their counts.
    pub fn build(self) -> (r: Report)
        requires
            self.wf(),
        ensures
            findings_model(r.findings@) == self.items(),
            r.counts.errors == capped(count_of(self.items(), Severity::Error)),
            r.counts.warnings == capped(count_of(self.items(), Severity::Warning)),
    {
        Report { counts: Counts { errors: self.errors, warnings: self.warnings }, findings: self.findings }
    }
}

// ---------------------------------------------------------------------------
// Report formatting
// ---------------------------------------------------------------------------

/// The upper-case label of a severity.
pub open spec fn upper_label(s: Severity) -> Seq<char> {
    match s {
        Severity::Error => "ERROR"@,
        Severity::Warning => "WARNING"@,
    }
}

/// The line of a finding: `LABEL file @ path: message`.
pub open spec fn finding_line(f: FindingView) -> Seq<char> {
    upper_label(f.0) + " "@ + f.1 + " @ "@ + f.2 + ": "@ + f.4 + "\n"@
}

/// The lines of the findings, in order.
pub open spec fn finding_lines(fs: Seq<FindingView>) -> Seq<char>
    decreases fs.len(),
{
    if fs.len() == 0 {
        Seq::empty()
    } else {
        finding_lines(fs.drop_last()) + finding_line(fs.last())
    }
}

/// The text of a report: a one-line success message when there is nothing
/// to report, otherwise a headline with the counts and a line per finding.
pub open spec fn report_text(errors: u32, warnings: u32, fs: Seq<FindingView>) -> Seq<char> {
    if errors == 0 && warnings == 0 {
        "Validation succeeded: no issues found"@
    } else if errors > 0 {
        "Validation failed: "@ + decimal(errors as nat) + " errors, "@ + decimal(warnings as nat)
            + " warnings\n"@ + finding_lines(fs)
    } else {
        "Validation succeeded with "@ + decimal(warnings as nat) + " warnings\n"@ + finding_lines(fs)
    }
}

fn upper_label_of(s: Severity) -> (r: &'static str)
    ensures
        r@ == upper_label(s),
{
    match s {
        Severity::Error => "ERROR",
        Severity::Warning => "WARNING",
    }
}

/// Formats a report as text for people.
pub fn format_report_text(report: &Report) -> (r: String)
    ensures
        r@ == report_text(report.counts.errors, report.counts.warnings, findings_model(report.findings@)),
{
    if report.counts.errors == 0 && report.counts.warnings == 0 {
        return to_owned_string("Validation succeeded: no issues found");
    }
    let mut out: String;
    if report.counts.errors > 0 {
        out = to_owned_string("Validation failed: ");
        out.append(u64_to_string(report.counts.errors as u64).as_str());
        out.append(" errors, ");
        out.append(u64_to_string(report.counts.warnings as u64).as_str());
        out.append(" warnings\n");
    } else {
        out = to_owned_string("Validation succeeded with ");
        out.append(u64_to_string(report.counts.warnings as u64).as_str());
        out.append(" warnings\n");
    }
    let ghost head = out@;
    let ghost fs = findings_model(report.findings@);
    let mut i: usize = 0;
    proof {
        assert(fs.subrange(0, 0) =~= Seq::<FindingView>::empty());
        assert(head + finding_lines(fs.subrange(0, 0)) =~= head);
    }
    while i < report.findings.len()
        invariant
            i <= report.findings@.len(),
            fs == findings_model(report.findings@),
            out@ == head + finding_lines(fs.subrange(0, i as int)),
        decreases report.findings.len() - i,
    {
        let f = &report.findings[i];
        let ghost before = out@;
        out.append(upper_label_of(f.severity));
        out.append(" ");
        out.append(f.file.as_str());
        out.append(" @ ");
        out.append(f.path.as_str());
        out.append(": ");
        out.append(f.message.as_str());
        out.append("\n");
        proof {
            let next = fs.subrange(0, i + 1);
            assert(next.drop_last() =~= fs.subrange(0, i as int));
            assert(next.last() == f@);
            assert(out@ =~= before + finding_line(f@));
            assert(out@ =~= head + finding_lines(next));
        }
        i = i + 1;
    }
    proof {
        assert(fs.subrange(0, fs.len() as int) =~= fs);
    }
    out
}

/// A finding without its severity, as listed in a JSON report.
#[derive(Debug, Clone)]
pub struct JsonFinding {
    pub file: String,
    pub path: String,
    pub kind: String,
    pub message: String,
}

/// Findings split into errors and warnings.
#[derive(Debug)]
pub struct JsonReport {
    pub errors: Vec<JsonFinding>,
    pub warnings: Vec<JsonFinding>,
}

/// File, path, kind and message of the findings of severity `s`, in order.
pub open spec fn of_severity(fs: Seq<FindingView>, s: Severity) -> Seq<(Seq<char>, Seq<char>, Seq<char>, Seq<char>)>
    decreases fs.len(),
{
    if fs.len() == 0 {
        Seq::empty()
    } else if fs.last().0 == s {
        of_severity(fs.drop_last(), s).push((fs.last().1, fs.last().2, fs.last().3, fs.last().4))
    } else {
        of_severity(fs.drop_last(), s)
    }
}

/// The model of JSON findings.
pub open spec fn json_findings_model(v: Seq<JsonFinding>) -> Seq<(Seq<char>, Seq<char>, Seq<char>, Seq<char>)> {
    Seq::new(v.len(), |i: int| (v[i].file@, v[i].path@, v[i].kind@, v[i].message@))
}

fn json_finding(f: &Finding) -> (r: JsonFinding)
    ensures
        (r.file@, r.path@, r.kind@, r.message@) == (f@.1, f@.2, f@.3, f@.4),
{
    JsonFinding {
        file: to_owned_string(f.file.as_str()),
        path: to_owned_string(f.path.as_str()),
        kind: to_owned_string(f.kind.as_str()),
        message: to_owned_string(f.message.as_str()),
    }
}

/// Splits the findings of a report into errors and warnings, keeping their
/// order, for serialization by the caller.
pub fn format_report_json(report: &Report) -> (r: JsonReport)
    ensures
        json_findings_model(r.errors@) == of_severity(findings_model(report.findings@), Severity::Error),
        json_findings_model(r.warnings@) == of_severity(findings_model(report.findings@), Severity::Warning),
{
    let ghost fs = findings_model(report.findings@);
    let mut errors: Vec<JsonFinding> = Vec::new();
    let mut warnings: Vec<JsonFinding> = Vec::new();
    let mut i: usize = 0;
    proof {
        assert(fs.subrange(0, 0) =~= Seq::<FindingView>::empty());
        assert(json_findings_model(errors@) =~= of_severity(fs.subrange(0, 0), Severity::Error));
        assert(json_findings_model(warnings@) =~= of_severity(fs.subrange(0, 0), Severity::Warning));
    }
    while i < report.findings.len()
        invariant
            i <= report.findings@.len(),
            fs == findings_model(report.findings@),
            json_findings_model(errors@) == of_severity(fs.subrange(0, i as int), Severity::Error),
            json_findings_model(warnings@) == of_severity(fs.subrange(0, i as int), Severity::Warning),
        decreases report.findings.len() - i,
    {
        let f = &report.findings[i];
        let entry = json_finding(f);
        let ghost e0 = json_findings_model(errors@);
        let ghost w0 = json_findings_model(warnings@);
        proof {
            let next = fs.subrange(0, i + 1);
            assert(next.drop_last() =~= fs.subrange(0, i as int));
            assert(next.last() == f@);
        }
        match f.severity {
            Severity::Error => {
                errors.push(entry);
                proof {
                    assert(json_findings_model(errors@) =~= e0.push((f@.1, f@.2, f@.3, f@.4)));
                }
            },
            Severity::Warning => {
                warnings.push(entry);
                proof {
                    assert(json_findings_model(warnings@) =~= w0.push((f@.1, f@.2, f@.3, f@.4)));
                }
            },
        }
        i = i + 1;
    }
    proof {
        assert(fs.subrange(0, fs.len() as int) =~= fs);
    }
    JsonReport { errors, warnings }
}

// ---------------------------------------------------------------------------
// Paths for display
// ---------------------------------------------------------------------------

/// `path` relative to `base` (`Path::strip_prefix`), when `base` is a
/// leading part of it.
pub open spec fn relative_to(path: Seq<char>, base: Seq<char>) -> Option<Seq<char>> {
    if base.len() == 0 {
        Some(path)
    } else if path == base {
        Some(Seq::empty())
    } else if base.last() == '/' && seq_starts_with(path, base) {
        Some(path.subrange(base.len() as int, path.len() as int))
    } else if seq_starts_with(path, base + seq!['/']) {
        Some(path.subrange(base.len() as int + 1, path.len() as int))
    } else {
        None
    }
}

/// How a path is shown in findings: relative to the config directory when
/// it lies in it, otherwise as it is.
pub open spec fn shown_path(path: Seq<char>, base: Seq<char>) -> Seq<char> {
    match relative_to(path, base) {
        Some(r) => r,
        None => path,
    }
}

/// `path` as shown in findings.
pub fn display_path(path: &str, base: &str) -> (r: String)
    ensures
        r@ == shown_path(path@, base@),
{
    let base_chars = crate::strings::chars_of(base);
    if base_chars.len() == 0 {
        return to_owned_string(path);
    }
    if crate::strings::str_eq(path, base) {
        return String::new();
    }
    if base_chars[base_chars.len() - 1] == '/' {
        if let Some(rest) = strip_prefix(path, base) {
            return rest;
        }
    }
    let with_slash = crate::strings::concat(base, "/");
    proof {
        reveal_strlit("/");
        assert(with_slash@ =~= base@ + seq!['/']);
    }
    match strip_prefix(path, with_slash.as_str()) {
        Some(rest) => rest,
        None => to_owned_string(path),
    }
}

/// `path` as shown in findings, falling back to the whole path.
pub fn display_path_with_fallback(path: &str, base: &str) -> (r: String)
    ensures
        r@ == shown_path(path@, base@),
{
    display_path(path, base)
}

// ---------------------------------------------------------------------------
// Placeholder availability
// ---------------------------------------------------------------------------

/// Whether a palette provides a placeholder, and what is missing if not.
#[derive(Debug, Clone, Copy, PartialEq, Eq, Structural)]
pub enum Availability {
    Found,
    Missing,
    MissingVariant,
    MissingReasoning,
    MissingReasoningDetail,
}

/// The agent field a generated placeholder names.
#[derive(Debug, Clone, Copy, PartialEq, Eq, Structural)]
pub enum AgentKey {
    Model,
    Variant,
    ReasoningEffort,
    TextVerbosity,
}

/// `reasoningEffort` is available when reasoning is on, or is an object
/// with an effort.
pub open spec fn effort_status(a: AgentModel) -> Availability {
    match a.reasoning {
        Some(ReasoningModel::Bool(true)) => Availability::Found,
        Some(ReasoningModel::Object(c)) => if c.effort is Some {
            Availability::Found
        } else {
            Availability::MissingReasoningDetail
        },
        _ => Availability::MissingReasoning,
    }
}

/// `textVerbosity` is available when reasoning is an object with a
/// verbosity.
pub open spec fn text_status(a: AgentModel) -> Availability {
    match a.reasoning {
        Some(ReasoningModel::Object(c)) => if c.text_verbosity is Some {
            Availability::Found
        } else {
            Availability::MissingReasoningDetail
        },
        _ => Availability::MissingReasoning,
    }
}

/// Availability of an agent's field in a palette.
pub open spec fn agent_availability(name: Seq<char>, p: PaletteModel, k: AgentKey) -> Availability {
    match entries_get(p.agents, name) {
        None => Availability::Missing,
        Some(a) => match k {
            AgentKey::Model => Availability::Found,
            AgentKey::Variant => if a.variant is Some {
                Availability::Found
            } else {
                Availability::MissingVariant
            },
            AgentKey::ReasoningEffort => effort_status(a),
            AgentKey::TextVerbosity => text_status(a),
        },
    }
}

/// `s` without the prefix `p`.
pub open spec fn after(s: Seq<char>, p: Seq<char>) -> Seq<char> {
    s.subrange(p.len() as int, s.len() as int)
}

/// `s` without the suffix `p`.
pub open spec fn before(s: Seq<char>, p: Seq<char>) -> Seq<char> {
    s.subrange(0, s.len() - p.len())
}

/// Availability of `key` after the mapping: `<name>-variant` names the
/// agent's variant, an agent's name its model.
pub open spec fn fallback_availability(key: Seq<char>, p: PaletteModel) -> Availability {
    if seq_ends_with(key, "-variant"@) {
        agent_availability(before(key, "-variant"@), p, AgentKey::Variant)
    } else if has_key(p.agents, key) {
        Availability::Found
    } else {
        Availability::Missing
    }
}

/// Whether `palette` provides the placeholder `key`: a mapping key, a
/// generated `agent-<name>-model|variant|reasoning-effort|text-verbosity`,
/// `<name>-variant`, or an agent's name.
pub open spec fn availability(key: Seq<char>, p: PaletteModel) -> Availability {
    if has_key(p.mapping, key) {
        Availability::Found
    } else if seq_starts_with(key, "agent-"@) {
        let a = after(key, "agent-"@);
        if seq_ends_with(a, "-model"@) {
            agent_availability(before(a, "-model"@), p, AgentKey::Model)
        } else if seq_ends_with(a, "-variant"@) {
            agent_availability(before(a, "-variant"@), p, AgentKey::Variant)
        } else if seq_ends_with(a, "-reasoning-effort"@) {
            agent_availability(before(a, "-reasoning-effort"@), p, AgentKey::ReasoningEffort)
        } else if seq_ends_with(a, "-text-verbosity"@) {
            agent_availability(before(a, "-text-verbosity"@), p, AgentKey::TextVerbosity)
        } else {
            fallback_availability(key, p)
        }
    } else {
        fallback_availability(key, p)
    }
}

/// Availability of `reasoningEffort` for an agent.
pub fn reasoning_effort_status(agent: &AgentConfig) -> (r: Availability)
    ensures
        r == effort_status(agent@),
{
    match &agent.reasoning {
        Some(Reasoning::Bool(true)) => Availability::Found,
        Some(Reasoning::Object(cfg)) => if cfg.effort.is_some() {
            Availability::Found
        } else {
            Availability::MissingReasoningDetail
        },
        _ => Availability::MissingReasoning,
    }
}

/// Availability of `textVerbosity` for an agent.
pub fn reasoning_text_status(agent: &AgentConfig) -> (r: Availability)
    ensures
        r == text_status(agent@),
{
    match &agent.reasoning {
        Some(Reasoning::Object(cfg)) => if cfg.text_verbosity.is_some() {
            Availability::Found
        } else {
            Availability::MissingReasoningDetail
        },
        _ => Availability::MissingReasoning,
    }
}

/// Availability of an agent's field in `palette`.
pub fn availability_for_agent(name: &str, palette: &Palette, key: AgentKey) -> (r: Availability)
    requires
        keys_sorted(palette@.agents),
    ensures
        r == agent_availability(name@, palette@, key),
{
    match palette.agents.get(name) {
        None => Availability::Missing,
        Some(agent) => match key {
            AgentKey::Model => Availability::Found,
            AgentKey::Variant => if agent.variant.is_some() {
                Availability::Found
            } else {
                Availability::MissingVariant
            },
            AgentKey::ReasoningEffort => reasoning_effort_status(agent),
            AgentKey::TextVerbosity => reasoning_text_status(agent),
        },
    }
}

fn fallback_availability_of(key: &str, palette: &Palette) -> (r: Availability)
    requires
        keys_sorted(palette@.agents),
    ensures
        r == fallback_availability(key@, palette@),
{
    if let Some(name) = strip_suffix(key, "-variant") {
        return availability_for_agent(name.as_str(), palette, AgentKey::Variant);
    }
    if palette.agents.contains_key(key) {
        Availability::Found
    } else {
        Availability::Missing
    }
}

/// Whether `palette` provides the placeholder `key`.
pub fn placeholder_availability(key: &str, palette: &Palette) -> (r: Availability)
    requires
        keys_sorted(palette@.agents),
        keys_sorted(palette@.mapping),
    ensures
        r == availability(key@, palette@),
{
    if palette.mapping.contains_key(key) {
        return Availability::Found;
    }
    if let Some(agent) = strip_prefix(key, "agent-") {
        if let Some(name) = strip_suffix(agent.as_str(), "-model") {
            return availability_for_agent(name.as_str(), palette, AgentKey::Model);
        }
        if let Some(name) = strip_suffix(agent.as_str(), "-variant") {
            return availability_for_agent(name.as_str(), palette, AgentKey::Variant);
        }
        if let Some(name) = strip_suffix(agent.as_str(), "-reasoning-effort") {
            return availability_for_agent(name.as_str(), palette, AgentKey::ReasoningEffort);
        }
        if let Some(name) = strip_suffix(agent.as_str(), "-text-verbosity") {
            return availability_for_agent(name.as_str(), palette, AgentKey::TextVerbosity);
        }
    }
    fallback_availability_of(key, palette)
}


/// `s + t` does not end with `u` when the two differ `j` places from the end.
proof fn lemma_not_ends(s: Seq<char>, t: Seq<char>, u: Seq<char>, j: int)
    requires
        0 <= j < t.len(),
        j < u.len(),
        t[t.len() - 1 - j] != u[u.len() - 1 - j],
    ensures
        !seq_ends_with(s + t, u),
{
    let w = s + t;
    if seq_ends_with(w, u) {
        let tail = w.subrange(w.len() - u.len(), w.len() as int);
        assert(tail[u.len() - 1 - j] == w[w.len() - 1 - j]);
        assert(w[w.len() - 1 - j] == t[t.len() - 1 - j]);
    }
}

/// The agent a key `agent-<a><suffix>` names, when it ends with `suffix`.
proof fn lemma_parse_key(a: Seq<char>, suffix: Seq<char>)
    ensures
        seq_starts_with("agent-"@ + a + suffix, "agent-"@),
        after("agent-"@ + a + suffix, "agent-"@) == a + suffix,
        seq_ends_with(a + suffix, suffix),
        before(a + suffix, suffix) == a,
{
    let k = "agent-"@ + a + suffix;
    assert(k.subrange(0, "agent-"@.len() as int) =~= "agent-"@);
    assert(after(k, "agent-"@) =~= a + suffix);
    assert((a + suffix).subrange(a.len() as int, (a + suffix).len() as int) =~= suffix);
    assert(before(a + suffix, suffix) =~= a);
}

/// Validation reports an agent's `agent-<a>-model`, `agent-<a>-variant`,
/// `agent-<a>-reasoning-effort` or `agent-<a>-text-verbosity` placeholder
/// available exactly when the palette's generated mapping defines it (when
/// no other agent generates the same key): in particular reasoning `true`
/// makes `agent-<a>-reasoning-effort` available.
pub proof fn law_availability_matches_mapping(p: PaletteModel, a: Seq<char>, k: Seq<char>)
    requires
        palette_wf(p),
        has_key(p.agents, a),
        k == agent_model_key(a) || k == agent_variant_key(a) || k == effort_key(a) || k == verbosity_key(a),
        forall|j: int| 0 <= j < p.agents.len() && p.agents[j].0 != a ==> !generates(#[trigger] p.agents[j].0, k),
    ensures
        availability(k, p) == Availability::Found <==> has_key(mapping_of(p), k),
{
    reveal_strlit("-model");
    reveal_strlit("-variant");
    reveal_strlit("-reasoning-effort");
    reveal_strlit("-text-verbosity");
    reveal_strlit("agent-");
    law_agent_placeholders(p, a, k);
    let c = entries_get(p.agents, a)->0;
    if k == agent_model_key(a) {
        lemma_parse_key(a, "-model"@);
    } else if k == agent_variant_key(a) {
        lemma_parse_key(a, "-variant"@);
        lemma_not_ends(a, "-variant"@, "-model"@, 0);
    } else if k == effort_key(a) {
        lemma_parse_key(a, "-reasoning-effort"@);
        lemma_not_ends(a, "-reasoning-effort"@, "-model"@, 0);
        lemma_not_ends(a, "-reasoning-effort"@, "-variant"@, 1);
    } else {
        lemma_parse_key(a, "-text-verbosity"@);
        lemma_not_ends(a, "-text-verbosity"@, "-model"@, 0);
        lemma_not_ends(a, "-text-verbosity"@, "-variant"@, 0);
        lemma_not_ends(a, "-text-verbosity"@, "-reasoning-effort"@, 0);
    }
}

// ---------------------------------------------------------------------------
// Mapping keys that shadow generated aliases
// ---------------------------------------------------------------------------

/// `key` is one of the placeholders generated for `agent`.
pub open spec fn generates(agent: Seq<char>, key: Seq<char>) -> bool {
    ||| key == agent
    ||| key == "agent-"@ + agent + "-model"@
    ||| key == "agent-"@ + agent + "-variant"@
    ||| key == agent + "-variant"@
    ||| key == "agent-"@ + agent + "-reasoning-effort"@
    ||| key == "agent-"@ + agent + "-text-verbosity"@
}

/// The last agent whose generated placeholders include `key`.
pub open spec fn alias_owner(agents: Seq<(Seq<char>, AgentModel)>, key: Seq<char>) -> Option<Seq<char>>
    decreases agents.len(),
{
    if agents.len() == 0 {
        None
    } else if generates(agents.last().0, key) {
        Some(agents.last().0)
    } else {
        alias_owner(agents.drop_last(), key)
    }
}

/// The finding for a mapping key of palette `name` that a generated alias
/// of `agent` shadows.
pub open spec fn alias_finding(name: Seq<char>, key: Seq<char>, agent: Seq<char>, file: Seq<char>, strict: bool) -> FindingView {
    (
        strict_severity(strict),
        file,
        "$.palettes."@ + name + ".mapping."@ + key,
        "ambiguous-alias"@,
        "mapping key '"@ + key + "' conflicts with generated alias for agent '"@ + agent + "'"@,
    )
}

/// Findings for the mapping keys (in order) that generated aliases shadow.
pub open spec fn alias_findings(
    name: Seq<char>,
    keys: Entries,
    agents: Seq<(Seq<char>, AgentModel)>,
    file: Seq<char>,
    strict: bool,
) -> Seq<FindingView>
    decreases keys.len(),
{
    if keys.len() == 0 {
        Seq::empty()
    } else {
        alias_findings(name, keys.drop_last(), agents, file, strict) + match alias_owner(agents, keys.last().0) {
            Some(a) => seq![alias_finding(name, keys.last().0, a, file, strict)],
            None => Seq::empty(),
        }
    }
}

/// Alias findings of every palette, in order.
pub open spec fn palettes_alias_findings(c: Seq<(Seq<char>, PaletteModel)>, file: Seq<char>, strict: bool) -> Seq<FindingView>
    decreases c.len(),
{
    if c.len() == 0 {
        Seq::empty()
    } else {
        palettes_alias_findings(c.drop_last(), file, strict) + alias_findings(
            c.last().0,
            c.last().1.mapping,
            c.last().1.agents,
            file,
            strict,
        )
    }
}

fn generates_key(agent: &str, key: &str) -> (r: bool)
    ensures
        r == generates(agent@, key@),
{
    str_eq(key, agent) || str_eq(key, concat3("agent-", agent, "-model").as_str()) || str_eq(
        key,
        concat3("agent-", agent, "-variant").as_str(),
    ) || str_eq(key, crate::strings::concat(agent, "-variant").as_str()) || str_eq(
        key,
        concat3("agent-", agent, "-reasoning-effort").as_str(),
    ) || str_eq(key, concat3("agent-", agent, "-text-verbosity").as_str())
}

fn alias_owner_of(palette: &Palette, key: &str) -> (r: Option<usize>)
    ensures
        match alias_owner(palette@.agents, key@) {
            Some(a) => r matches Some(i) && i < palette@.agents.len() && palette@.agents[i as int].0 == a,
            None => r is None,
        },
{
    let ghost agents = palette@.agents;
    let mut i: usize = palette.agents.entries.len();
    proof {
        assert(agents.subrange(0, i as int) =~= agents);
    }
    while i > 0
        invariant
            i <= agents.len(),
            agents == palette@.agents,
            alias_owner(agents, key@) == alias_owner(agents.subrange(0, i as int), key@),
        decreases i,
    {
        let ghost pre = agents.subrange(0, i as int);
        proof {
            assert(pre.drop_last() =~= agents.subrange(0, i - 1));
            assert(pre.last() == agents[i - 1]);
        }
        if generates_key(palette.agents.entries[i - 1].0.as_str(), key) {
            return Some(i - 1);
        }
        i = i - 1;
    }
    None
}

/// Reports the mapping keys of palette `name` that a generated alias
/// shadows; the generated alias wins when rendering.
pub fn detect_ambiguous_aliases(
    name: &str,
    palette: &Palette,
    file: &str,
    strict: bool,
    report: &mut ReportBuilder,
)
    requires
        old(report).wf(),
    ensures
        final(report).wf(),
        final(report).items() == old(report).items() + alias_findings(
            name@,
            palette@.mapping,
            palette@.agents,
            file@,
            strict,
        ),
{
    let ghost keys = palette@.mapping;
    let ghost start = report.items();
    let mut i: usize = 0;
    proof {
        assert(keys.subrange(0, 0) =~= Seq::<(Seq<char>, Json)>::empty());
        assert(start + Seq::<FindingView>::empty() =~= start);
    }
    while i < palette.mapping.entries.len()
        invariant
            i <= keys.len(),
            keys == palette@.mapping,
            report.wf(),
            report.items() == start + alias_findings(name@, keys.subrange(0, i as int), palette@.agents, file@, strict),
        decreases palette.mapping.entries.len() - i,
    {
        let key = &palette.mapping.entries[i].0;
        let ghost before = report.items();
        proof {
            let next = keys.subrange(0, i + 1);
            assert(next.drop_last() =~= keys.subrange(0, i as int));
            assert(next.last().0 == key@);
        }
        match alias_owner_of(palette, key.as_str()) {
            Some(j) => {
                let agent = &palette.agents.entries[j].0;
                let path = crate::strings::concat(concat3("$.palettes.", name, ".mapping.").as_str(), key.as_str());
                let mut message = concat3("mapping key '", key.as_str(), "' conflicts with generated alias for agent '");
                message.append(agent.as_str());
                message.append("'");
                report.warn_or_error(strict, to_owned_string(file), path, "ambiguous-alias", message);
                proof {
                    assert(report.items() =~= before + seq![alias_finding(name@, key@, agent@, file@, strict)]);
                }
            },
            None => {
                proof {
                    assert(before + Seq::<FindingView>::empty() =~= before);
                }
            },
        }
        proof {
            let next = keys.subrange(0, i + 1);
            assert(report.items() =~= start + alias_findings(name@, next, palette@.agents, file@, strict));
        }
        i = i + 1;
    }
    proof {
        assert(keys.subrange(0, keys.len() as int) =~= keys);
    }
}

/// Reports shadowed mapping keys of every palette, in palette order.
pub fn check_palette_aliases(configs: &ModelConfigs, file: &str, strict: bool, report: &mut ReportBuilder)
    requires
        old(report).wf(),
    ensures
        final(report).wf(),
        final(report).items() == old(report).items() + palettes_alias_findings(configs@, file@, strict),
{
    let ghost c = configs@;
    let ghost start = report.items();
    let mut i: usize = 0;
    proof {
        assert(c.subrange(0, 0) =~= Seq::<(Seq<char>, PaletteModel)>::empty());
        assert(start + Seq::<FindingView>::empty() =~= start);
    }
    while i < configs.palettes.entries.len()
        invariant
            i <= c.len(),
            c == configs@,
            report.wf(),
            report.items() == start + palettes_alias_findings(c.subrange(0, i as int), file@, strict),
        decreases configs.palettes.entries.len() - i,
    {
        let name = &configs.palettes.entries[i].0;
        let palette = &configs.palettes.entries[i].1;
        let ghost before = report.items();
        detect_ambiguous_aliases(name.as_str(), palette, file, strict, report);
        proof {
            let next = c.subrange(0, i + 1);
            assert(next.drop_last() =~= c.subrange(0, i as int));
            assert(next.last() == (name@, palette@));
            assert(report.items() =~= start + palettes_alias_findings(next, file@, strict));
        }
        i = i + 1;
    }
    proof {
        assert(c.subrange(0, c.len() as int) =~= c);
    }
}


// ---------------------------------------------------------------------------
// Placeholder scanning
// ---------------------------------------------------------------------------

/// A placeholder found in a template.
#[derive(Debug, Clone)]
pub struct PlaceholderUse {
    /// The key, without surrounding blanks.
    pub key: String,
    /// JSON path of the string that holds it.
    pub path: String,
    /// The string is nothing but this placeholder.
    pub is_full: bool,
    /// The name of the member that holds the string, if any.
    pub json_key: Option<String>,
}

/// The model of a placeholder use: key, path, whether it is the whole
/// string, and the member name.
pub type UseView = (Seq<char>, Seq<char>, bool, Option<Seq<char>>);

impl View for PlaceholderUse {
    type V = UseView;

    open spec fn view(&self) -> UseView {
        (self.key@, self.path@, self.is_full, crate::config::opt_text(self.json_key))
    }
}

/// The model of a list of uses.
pub open spec fn uses_model(v: Seq<PlaceholderUse>) -> Seq<UseView> {
    Seq::new(v.len(), |i: int| v[i]@)
}

/// Uses and findings produced by a scan.
pub type ScanOut = (Seq<UseView>, Seq<FindingView>);

/// Nothing found.
pub open spec fn no_out() -> ScanOut {
    (Seq::empty(), Seq::empty())
}

/// Two scan results one after the other.
pub open spec fn join_out(a: ScanOut, b: ScanOut) -> ScanOut {
    (a.0 + b.0, a.1 + b.1)
}

/// `s` without trailing dots (`trim_end_matches('.')`).
pub open spec fn trim_dots(s: Seq<char>) -> Seq<char>
    decreases s.len(),
{
    if s.len() > 0 && s.last() == '.' {
        trim_dots(s.drop_last())
    } else {
        s
    }
}

/// A placeholder match: a use of its key, or an error when the key is
/// blank.
pub open spec fn hit_out(h: Hit, text: Seq<char>, path: Seq<char>, jkey: Option<Seq<char>>, file: Seq<char>) -> ScanOut {
    if hit_key(h).len() == 0 {
        (
            Seq::empty(),
            seq![(Severity::Error, file, path, "malformed-placeholder"@, "placeholder key is empty"@)],
        )
    } else {
        (seq![(hit_key(h), path, seq_trim(text) == h.0, jkey)], Seq::empty())
    }
}

/// The matches of a string, in order.
pub open spec fn hits_out(hits: Seq<Hit>, text: Seq<char>, path: Seq<char>, jkey: Option<Seq<char>>, file: Seq<char>) -> ScanOut
    decreases hits.len(),
{
    if hits.len() == 0 {
        no_out()
    } else {
        join_out(hits_out(hits.drop_last(), text, path, jkey, file), hit_out(hits.last(), text, path, jkey, file))
    }
}

/// A string: braces without any placeholder are an error; otherwise each
/// match is scanned.
pub open spec fn text_out(text: Seq<char>, path: Seq<char>, jkey: Option<Seq<char>>, file: Seq<char>) -> ScanOut {
    let hits = scan_of(text).1;
    if hits.len() == 0 && (seq_contains_sub(text, "{{"@) || seq_contains_sub(text, "}}"@)) {
        (
            Seq::empty(),
            seq![
                (
                    Severity::Error,
                    file,
                    path,
                    "malformed-placeholder"@,
                    "placeholder braces found but no valid placeholder"@,
                ),
            ],
        )
    } else {
        hits_out(hits, text, path, jkey, file)
    }
}

/// The path of an object member.
pub open spec fn member_path(base: Seq<char>, key: Seq<char>) -> Seq<char> {
    base + "."@ + key
}

/// The path of an array element.
pub open spec fn element_path(base: Seq<char>, i: nat) -> Seq<char> {
    base + "["@ + decimal(i) + "]"@
}

/// A value scanned in document order: members and elements recursively,
/// strings for placeholders.
pub open spec fn scan_value(v: Json, path: Seq<char>, jkey: Option<Seq<char>>, file: Seq<char>) -> ScanOut
    decreases v, 1int,
{
    match v {
        Json::Object(e) => scan_members(e, trim_dots(path), file),
        Json::Array(a) => scan_elements(a, trim_dots(path), file),
        Json::Str(t) => text_out(t, path, jkey, file),
        _ => no_out(),
    }
}

pub open spec fn scan_members(e: Entries, base: Seq<char>, file: Seq<char>) -> ScanOut
    decreases e, 0int,
{
    if e.len() == 0 {
        no_out()
    } else {
        proof {
            assert(decreases_to!(e => e[e.len() - 1]));
        }
        join_out(
            scan_members(e.drop_last(), base, file),
            scan_value(e.last().1, member_path(base, e.last().0), Some(e.last().0), file),
        )
    }
}

pub open spec fn scan_elements(a: Seq<Json>, base: Seq<char>, file: Seq<char>) -> ScanOut
    decreases a, 0int,
{
    if a.len() == 0 {
        no_out()
    } else {
        proof {
            assert(decreases_to!(a => a[a.len() - 1]));
        }
        join_out(
            scan_elements(a.drop_last(), base, file),
            scan_value(a.last(), element_path(base, (a.len() - 1) as nat), None, file),
        )
    }
}

fn trim_dots_of(s: &str) -> (r: String)
    ensures
        r@ == trim_dots(s@),
{
    let cs = crate::strings::chars_of(s);
    let mut n: usize = cs.len();
    proof {
        assert(s@.subrange(0, n as int) =~= s@);
    }
    while n > 0 && cs[n - 1] == '.'
        invariant
            n <= cs@.len(),
            cs@ == s@,
            trim_dots(s@) == trim_dots(s@.subrange(0, n as int)),
        decreases n,
    {
        proof {
            let pre = s@.subrange(0, n as int);
            assert(pre.drop_last() =~= s@.subrange(0, n - 1));
        }
        n = n - 1;
    }
    let rest = crate::strings::slice_chars(&cs, 0, n);
    proof {
        assert(rest@ =~= s@.subrange(0, n as int));
    }
    crate::strings::string_from_chars(rest.as_slice())
}

fn copy_opt(o: &Option<String>) -> (r: Option<String>)
    ensures
        crate::config::opt_text(r) == crate::config::opt_text(*o),
{
    match o {
        Some(k) => {
            let c = to_owned_string(k.as_str());
            Some(c)
        },
        None => None,
    }
}

/// Records the placeholders of the string `text` at `path`.
fn scan_text(
    text: &str,
    path: &String,
    jkey: &Option<String>,
    file: &str,
    uses: &mut Vec<PlaceholderUse>,
    report: &mut ReportBuilder,
)
    requires
        old(report).wf(),
        pattern_compiles(PLACEHOLDER_PATTERN@),
    ensures
        final(report).wf(),
        uses_model(final(uses)@) == uses_model(old(uses)@) + text_out(text@, path@, crate::config::opt_text(*jkey), file@).0,
        final(report).items() == old(report).items() + text_out(text@, path@, crate::config::opt_text(*jkey), file@).1,
{
    let ghost jk = crate::config::opt_text(*jkey);
    let ghost u0 = uses_model(uses@);
    let ghost r0 = report.items();
    let scan = match regex_scan(PLACEHOLDER_PATTERN, text) {
        Ok(s) => s,
        Err(_) => {
            proof {
                assert(false);
            }
            return;
        },
    };
    let ghost hits = scan@.1;
    if scan.hits.len() == 0 && (contains_str(text, "{{") || contains_str(text, "}}")) {
        report.push(
            Severity::Error,
            to_owned_string(file),
            path.clone(),
            "malformed-placeholder",
            to_owned_string("placeholder braces found but no valid placeholder"),
        );
        proof {
            assert(uses_model(uses@) =~= u0 + Seq::<UseView>::empty());
        }
        return;
    }
    let trimmed = trim(text);
    let mut i: usize = 0;
    proof {
        assert(hits.subrange(0, 0) =~= Seq::<Hit>::empty());
        assert(u0 + Seq::<UseView>::empty() =~= u0);
        assert(r0 + Seq::<FindingView>::empty() =~= r0);
    }
    while i < scan.hits.len()
        invariant
            i <= scan.hits@.len(),
            hits == scan@.1,
            hits == scan_of(text@).1,
            trimmed@ == seq_trim(text@),
            jk == crate::config::opt_text(*jkey),
            report.wf(),
            uses_model(uses@) == u0 + hits_out(hits.subrange(0, i as int), text@, path@, jk, file@).0,
            report.items() == r0 + hits_out(hits.subrange(0, i as int), text@, path@, jk, file@).1,
        decreases scan.hits.len() - i,
    {
        let ghost h = hits[i as int];
        let ghost ub = uses_model(uses@);
        let ghost rb = report.items();
        assert(h == (scan.hits@[i as int].0@, scan.hits@[i as int].1@));
        let key = trim(scan.hits[i].1.as_str());
        if crate::strings::chars_of(key.as_str()).len() == 0 {
            report.push(
                Severity::Error,
                to_owned_string(file),
                path.clone(),
                "malformed-placeholder",
                to_owned_string("placeholder key is empty"),
            );
            proof {
                assert(uses_model(uses@) =~= ub + Seq::<UseView>::empty());
            }
        } else {
            let is_full = str_eq(trimmed.as_str(), scan.hits[i].0.as_str());
            let json_key = copy_opt(jkey);
            let u = PlaceholderUse { key, path: to_owned_string(path.as_str()), is_full, json_key };
            assert(u@ == (hit_key(h), path@, seq_trim(text@) == h.0, jk));
            uses.push(u);
            proof {
                assert(uses_model(uses@) =~= ub + seq![(hit_key(h), path@, seq_trim(text@) == h.0, jk)]);
                assert(report.items() =~= rb + Seq::<FindingView>::empty());
            }
        }
        proof {
            let next = hits.subrange(0, i + 1);
            assert(next.drop_last() =~= hits.subrange(0, i as int));
            assert(next.last() == h);
            assert(uses_model(uses@) =~= u0 + hits_out(next, text@, path@, jk, file@).0);
            assert(report.items() =~= r0 + hits_out(next, text@, path@, jk, file@).1);
        }
        i = i + 1;
    }
    proof {
        assert(hits.subrange(0, hits.len() as int) =~= hits);
    }
}

/// Records the placeholders of `value`, found at `path`, in document order.
#[verifier::loop_isolation(false)]
pub fn scan_placeholders(
    value: &JsonValue,
    path: String,
    json_key: Option<String>,
    file: &str,
    uses: &mut Vec<PlaceholderUse>,
    report: &mut ReportBuilder,
)
    requires
        old(report).wf(),
        pattern_compiles(PLACEHOLDER_PATTERN@),
    ensures
        final(report).wf(),
        uses_model(final(uses)@) == uses_model(old(uses)@) + scan_value(value@, path@, crate::config::opt_text(json_key), file@).0,
        final(report).items() == old(report).items() + scan_value(value@, path@, crate::config::opt_text(json_key), file@).1,
    decreases value,
{
    let ghost u0 = uses_model(uses@);
    let ghost r0 = report.items();
    match value {
        JsonValue::Object(obj) => {
            proof {
                lemma_object_view(obj);
            }
            let base = trim_dots_of(path.as_str());
            let ghost e = obj@;
            let mut i: usize = 0;
            proof {
                assert(e.subrange(0, 0) =~= Seq::<(Seq<char>, Json)>::empty());
                assert(u0 + Seq::<UseView>::empty() =~= u0);
                assert(r0 + Seq::<FindingView>::empty() =~= r0);
            }
            while i < obj.entries.len()
                invariant
                    i <= e.len(),
                    e == obj@,
                    value@ == Json::Object(e),
                    pattern_compiles(PLACEHOLDER_PATTERN@),
                    base@ == trim_dots(path@),
                    report.wf(),
                    uses_model(uses@) == u0 + scan_members(e.subrange(0, i as int), base@, file@).0,
                    report.items() == r0 + scan_members(e.subrange(0, i as int), base@, file@).1,
                decreases obj.entries.len() - i,
            {
                let key = &obj.entries[i].0;
                let child = &obj.entries[i].1;
                let ghost ub = uses_model(uses@);
                let ghost rb = report.items();
                proof {
                    assert(decreases_to!(value => obj.entries@[i as int].1));
                }
                let child_path = concat3(base.as_str(), ".", key.as_str());
                scan_placeholders(child, child_path, Some(key.clone()), file, uses, report);
                proof {
                    let next = e.subrange(0, i + 1);
                    assert(next.drop_last() =~= e.subrange(0, i as int));
                    assert(next.last() == (key@, child@));
                    assert(uses_model(uses@) =~= u0 + scan_members(next, base@, file@).0);
                    assert(report.items() =~= r0 + scan_members(next, base@, file@).1);
                }
                i = i + 1;
            }
            proof {
                assert(e.subrange(0, e.len() as int) =~= e);
            }
        },
        JsonValue::Array(items) => {
            proof {
                lemma_array_view(items);
            }
            let base = trim_dots_of(path.as_str());
            let ghost a = items@.map_values(|x: JsonValue| x@);
            let mut i: usize = 0;
            proof {
                assert(a.subrange(0, 0) =~= Seq::<Json>::empty());
                assert(u0 + Seq::<UseView>::empty() =~= u0);
                assert(r0 + Seq::<FindingView>::empty() =~= r0);
            }
            while i < items.len()
                invariant
                    i <= items@.len(),
                    a == items@.map_values(|x: JsonValue| x@),
                    value@ == Json::Array(a),
                    pattern_compiles(PLACEHOLDER_PATTERN@),
                    base@ == trim_dots(path@),
                    report.wf(),
                    uses_model(uses@) == u0 + scan_elements(a.subrange(0, i as int), base@, file@).0,
                    report.items() == r0 + scan_elements(a.subrange(0, i as int), base@, file@).1,
                decreases items.len() - i,
            {
                let ghost ub = uses_model(uses@);
                let ghost rb = report.items();
                proof {
                    assert(decreases_to!(value => items@[i as int]));
                }
                let mut child_path = concat3(base.as_str(), "[", u64_to_string(i as u64).as_str());
                child_path.append("]");
                scan_placeholders(&items[i], child_path, None, file, uses, report);
                proof {
                    let next = a.subrange(0, i + 1);
                    assert(next.drop_last() =~= a.subrange(0, i as int));
                    assert(next.last() == items@[i as int]@);
                    assert(uses_model(uses@) =~= u0 + scan_elements(next, base@, file@).0);
                    assert(report.items() =~= r0 + scan_elements(next, base@, file@).1);
                }
                i = i + 1;
            }
            proof {
                assert(a.subrange(0, a.len() as int) =~= a);
            }
        },
        JsonValue::String(t) => {
            scan_text(t.as_str(), &path, &json_key, file, uses, report);
        },
        _ => {
            proof {
                assert(uses_model(uses@) =~= u0 + Seq::<UseView>::empty());
                assert(report.items() =~= r0 + Seq::<FindingView>::empty());
            }
        },
    }
}


// ---------------------------------------------------------------------------
// Environment placeholders
// ---------------------------------------------------------------------------

/// The environment holds a variable named `name`.
pub open spec fn env_has(env: Seq<(Seq<char>, Seq<char>)>, name: Seq<char>) -> bool {
    exists|i: int| 0 <= i < env.len() && #[trigger] env[i].0 == name
}

/// Findings for an `env:` placeholder: an error unless `--env-allow` is
/// on, then a warning (an error in strict mode) when the variable is unset.
pub open spec fn env_use_findings(
    u: UseView,
    file: Seq<char>,
    strict: bool,
    env_allow: Option<bool>,
    env: Seq<(Seq<char>, Seq<char>)>,
) -> Seq<FindingView> {
    if !seq_starts_with(u.0, "env:"@) {
        Seq::empty()
    } else if env_allow != Some(true) {
        seq![
            (
                Severity::Error,
                file,
                u.1,
                "env-not-allowed"@,
                "env placeholder '"@ + u.0 + "' requires --env-allow to be enabled"@,
            ),
        ]
    } else if env_has(env, after(u.0, "env:"@)) {
        Seq::empty()
    } else {
        seq![
            (
                strict_severity(strict),
                file,
                u.1,
                "env-missing"@,
                "environment variable '"@ + after(u.0, "env:"@) + "' referenced by placeholder '"@ + u.0
                    + "' is not set"@,
            ),
        ]
    }
}

/// Findings for the `env:` placeholders among `uses`, in order.
pub open spec fn env_findings(
    uses: Seq<UseView>,
    file: Seq<char>,
    strict: bool,
    env_allow: Option<bool>,
    env: Seq<(Seq<char>, Seq<char>)>,
) -> Seq<FindingView>
    decreases uses.len(),
{
    if uses.len() == 0 {
        Seq::empty()
    } else {
        env_findings(uses.drop_last(), file, strict, env_allow, env) + env_use_findings(
            uses.last(),
            file,
            strict,
            env_allow,
            env,
        )
    }
}

fn env_contains(env: &Vec<(String, String)>, name: &str) -> (r: bool)
    ensures
        r == env_has(crate::substitute::string_pairs(env@), name@),
{
    let ghost pairs = crate::substitute::string_pairs(env@);
    let mut i: usize = 0;
    while i < env.len()
        invariant
            i <= env@.len(),
            pairs == crate::substitute::string_pairs(env@),
            forall|j: int| 0 <= j < i ==> pairs[j].0 != name@,
        decreases env.len() - i,
    {
        if str_eq(env[i].0.as_str(), name) {
            assert(pairs[i as int].0 == name@);
            return true;
        }
        i = i + 1;
    }
    false
}

/// Checks the `env:` placeholders among `uses` against the environment
/// `env` (name and value of each variable).
pub fn validate_env_placeholders(
    uses: &Vec<PlaceholderUse>,
    file: &str,
    strict: bool,
    env_allow: Option<bool>,
    env: &Vec<(String, String)>,
    report: &mut ReportBuilder,
)
    requires
        old(report).wf(),
    ensures
        final(report).wf(),
        final(report).items() == old(report).items() + env_findings(
            uses_model(uses@),
            file@,
            strict,
            env_allow,
            crate::substitute::string_pairs(env@),
        ),
{
    let ghost us = uses_model(uses@);
    let ghost ev = crate::substitute::string_pairs(env@);
    let ghost start = report.items();
    let mut i: usize = 0;
    proof {
        assert(us.subrange(0, 0) =~= Seq::<UseView>::empty());
        assert(start + Seq::<FindingView>::empty() =~= start);
    }
    while i < uses.len()
        invariant
            i <= uses@.len(),
            us == uses_model(uses@),
            ev == crate::substitute::string_pairs(env@),
            report.wf(),
            report.items() == start + env_findings(us.subrange(0, i as int), file@, strict, env_allow, ev),
        decreases uses.len() - i,
    {
        let u = &uses[i];
        let ghost before = report.items();
        if let Some(var_name) = strip_prefix(u.key.as_str(), "env:") {
            if env_allow != Some(true) {
                let mut message = concat3("env placeholder '", u.key.as_str(), "' requires --env-allow to be enabled");
                report.push(Severity::Error, to_owned_string(file), to_owned_string(u.path.as_str()), "env-not-allowed", message);
            } else if !env_contains(env, var_name.as_str()) {
                let mut message = concat3("environment variable '", var_name.as_str(), "' referenced by placeholder '");
                message.append(u.key.as_str());
                message.append("' is not set");
                report.warn_or_error(strict, to_owned_string(file), to_owned_string(u.path.as_str()), "env-missing", message);
            }
        }
        proof {
            let next = us.subrange(0, i + 1);
            assert(next.drop_last() =~= us.subrange(0, i as int));
            assert(next.last() == u@);
            assert(report.items() =~= before + env_use_findings(u@, file@, strict, env_allow, ev));
            assert(report.items() =~= start + env_findings(next, file@, strict, env_allow, ev));
        }
        i = i + 1;
    }
    proof {
        assert(us.subrange(0, us.len() as int) =~= us);
    }
}

// ---------------------------------------------------------------------------
// Placeholders against palettes
// ---------------------------------------------------------------------------

/// Some palette provides `key`.
pub open spec fn found_any(palettes: Seq<(Seq<char>, PaletteModel)>, key: Seq<char>) -> bool
    decreases palettes.len(),
{
    if palettes.len() == 0 {
        false
    } else {
        found_any(palettes.drop_last(), key) || availability(key, palettes.last().1) == Availability::Found
    }
}

/// Names of the palettes, in order, for which `key` has availability `a`.
pub open spec fn names_with(palettes: Seq<(Seq<char>, PaletteModel)>, key: Seq<char>, a: Availability) -> Seq<Seq<char>>
    decreases palettes.len(),
{
    if palettes.len() == 0 {
        Seq::empty()
    } else if availability(key, palettes.last().1) == a {
        names_with(palettes.drop_last(), key, a).push(palettes.last().0)
    } else {
        names_with(palettes.drop_last(), key, a)
    }
}

/// Names separated by `", "`.
pub open spec fn comma_list(s: Seq<Seq<char>>) -> Seq<char>
    decreases s.len(),
{
    if s.len() == 0 {
        Seq::empty()
    } else if s.len() == 1 {
        s[0]
    } else {
        comma_list(s.drop_last()) + ", "@ + s.last()
    }
}

/// A whole-string `variant` member whose key ends in `-variant`: a missing
/// variant is only a warning.
pub open spec fn optional_variant(u: UseView) -> bool {
    u.2 && u.3 == Some("variant"@) && seq_ends_with(u.0, "-variant"@)
}

/// One finding listing the palettes in `names`, when there are any.
pub open spec fn palettes_finding(
    names: Seq<Seq<char>>,
    strict: bool,
    file: Seq<char>,
    path: Seq<char>,
    kind: Seq<char>,
    prefix: Seq<char>,
) -> Seq<FindingView> {
    if names.len() == 0 {
        Seq::empty()
    } else {
        seq![(strict_severity(strict), file, path, kind, prefix + comma_list(names))]
    }
}

/// Findings for a placeholder checked against the palettes: unknown to
/// every palette is an error (a warning for an optional variant); otherwise
/// one finding per kind of gap, listing the palettes that have it.
pub open spec fn use_findings(
    u: UseView,
    palettes: Seq<(Seq<char>, PaletteModel)>,
    file: Seq<char>,
    strict: bool,
) -> Seq<FindingView> {
    let k = u.0;
    if !found_any(palettes, k) {
        if optional_variant(u) {
            seq![(strict_severity(strict), file, u.1, "missing-variant"@, "variant placeholder '"@ + k + "' is missing"@)]
        } else {
            seq![(Severity::Error, file, u.1, "unknown-placeholder"@, "unknown placeholder '"@ + k + "'"@)]
        }
    } else {
        palettes_finding(
            names_with(palettes, k, Availability::Missing),
            strict,
            file,
            u.1,
            "palette-mismatch"@,
            "placeholder '"@ + k + "' missing from palettes: "@,
        ) + palettes_finding(
            names_with(palettes, k, Availability::MissingVariant),
            strict,
            file,
            u.1,
            if optional_variant(u) {
                "missing-variant"@
            } else {
                "palette-mismatch"@
            },
            "variant placeholder '"@ + k + "' missing from palettes: "@,
        ) + palettes_finding(
            names_with(palettes, k, Availability::MissingReasoning),
            strict,
            file,
            u.1,
            "missing-reasoning"@,
            "reasoning placeholder '"@ + k + "' missing from palettes: "@,
        ) + palettes_finding(
            names_with(palettes, k, Availability::MissingReasoningDetail),
            strict,
            file,
            u.1,
            "missing-reasoning"@,
            "reasoning placeholder '"@ + k + "' missing from palettes: "@,
        )
    }
}

/// Findings for all uses, in order.
pub open spec fn placeholder_findings(
    uses: Seq<UseView>,
    palettes: Seq<(Seq<char>, PaletteModel)>,
    file: Seq<char>,
    strict: bool,
) -> Seq<FindingView>
    decreases uses.len(),
{
    if uses.len() == 0 {
        Seq::empty()
    } else {
        placeholder_findings(uses.drop_last(), palettes, file, strict) + use_findings(
            uses.last(),
            palettes,
            file,
            strict,
        )
    }
}

fn join_names(names: &Vec<String>) -> (r: String)
    ensures
        r@ == comma_list(Seq::new(names@.len(), |i: int| names@[i]@)),
{
    let ghost ns = Seq::new(names@.len(), |i: int| names@[i]@);
    let mut out = String::new();
    let mut i: usize = 0;
    proof {
        assert(ns.subrange(0, 0) =~= Seq::<Seq<char>>::empty());
        assert(out@ =~= Seq::<char>::empty());
    }
    while i < names.len()
        invariant
            i <= names@.len(),
            ns == Seq::new(names@.len(), |i: int| names@[i]@),
            out@ == comma_list(ns.subrange(0, i as int)),
        decreases names.len() - i,
    {
        let ghost before = out@;
        if i > 0 {
            out.append(", ");
        }
        out.append(names[i].as_str());
        proof {
            let next = ns.subrange(0, i + 1);
            assert(next.drop_last() =~= ns.subrange(0, i as int));
            if i == 0 {
                assert(out@ =~= next[0]);
            } else {
                assert(out@ =~= comma_list(next.drop_last()) + ", "@ + next.last());
            }
        }
        i = i + 1;
    }
    proof {
        assert(ns.subrange(0, ns.len() as int) =~= ns);
    }
    out
}

/// Adds the finding listing `names`, when there are any.
fn report_palettes(
    names: &Vec<String>,
    strict: bool,
    file: &str,
    path: &str,
    kind: &str,
    prefix: String,
    report: &mut ReportBuilder,
)
    requires
        old(report).wf(),
    ensures
        final(report).wf(),
        final(report).items() == old(report).items() + palettes_finding(
            names_of(names@),
            strict,
            file@,
            path@,
            kind@,
            prefix@,
        ),
{
    if names.len() == 0 {
        proof {
            assert(report.items() =~= report.items() + Seq::<FindingView>::empty());
        }
        return;
    }
    let mut message = prefix;
    message.append(join_names(names).as_str());
    proof {
        assert(names_of(names@) =~= Seq::new(names@.len(), |i: int| names@[i]@));
    }
    report.warn_or_error(strict, to_owned_string(file), to_owned_string(path), kind, message);
}

/// Where a placeholder stands in each palette.
struct Gaps {
    found: bool,
    missing: Vec<String>,
    missing_variant: Vec<String>,
    missing_reasoning: Vec<String>,
    missing_detail: Vec<String>,
}

spec fn names_of(v: Seq<String>) -> Seq<Seq<char>> {
    Seq::new(v.len(), |j: int| v[j]@)
}

fn push_name(v: &mut Vec<String>, name: &String)
    ensures
        names_of(final(v)@) == names_of(old(v)@).push(name@),
{
    v.push(to_owned_string(name.as_str()));
    proof {
        assert(names_of(final(v)@) =~= names_of(old(v)@).push(name@));
    }
}

#[verifier::rlimit(30)]
fn palette_gaps(key: &str, configs: &ModelConfigs) -> (g: Gaps)
    requires
        configs_wf(configs@),
    ensures
        g.found == found_any(configs@, key@),
        names_of(g.missing@) == names_with(configs@, key@, Availability::Missing),
        names_of(g.missing_variant@) == names_with(configs@, key@, Availability::MissingVariant),
        names_of(g.missing_reasoning@) == names_with(configs@, key@, Availability::MissingReasoning),
        names_of(g.missing_detail@) == names_with(configs@, key@, Availability::MissingReasoningDetail),
{
    let ghost ps = configs@;
    let mut g = Gaps {
        found: false,
        missing: Vec::new(),
        missing_variant: Vec::new(),
        missing_reasoning: Vec::new(),
        missing_detail: Vec::new(),
    };
    let mut i: usize = 0;
    proof {
        assert(ps.subrange(0, 0) =~= Seq::<(Seq<char>, PaletteModel)>::empty());
        assert(names_of(g.missing@) =~= Seq::<Seq<char>>::empty());
        assert(names_of(g.missing_variant@) =~= Seq::<Seq<char>>::empty());
        assert(names_of(g.missing_reasoning@) =~= Seq::<Seq<char>>::empty());
        assert(names_of(g.missing_detail@) =~= Seq::<Seq<char>>::empty());
    }
    while i < configs.palettes.entries.len()
        invariant
            i <= ps.len(),
            ps == configs@,
            configs_wf(ps),
            g.found == found_any(ps.subrange(0, i as int), key@),
            names_of(g.missing@) == names_with(ps.subrange(0, i as int), key@, Availability::Missing),
            names_of(g.missing_variant@) == names_with(ps.subrange(0, i as int), key@, Availability::MissingVariant),
            names_of(g.missing_reasoning@) == names_with(ps.subrange(0, i as int), key@, Availability::MissingReasoning),
            names_of(g.missing_detail@) == names_with(ps.subrange(0, i as int), key@, Availability::MissingReasoningDetail),
        decreases configs.palettes.entries.len() - i,
    {
        let name = &configs.palettes.entries[i].0;
        let palette = &configs.palettes.entries[i].1;
        proof {
            assert(palette_wf(ps[i as int].1));
            let next = ps.subrange(0, i + 1);
            assert(next.drop_last() =~= ps.subrange(0, i as int));
            assert(next.last() == (name@, palette@));
        }
        let a = placeholder_availability(key, palette);
        match a {
            Availability::Found => {
                g.found = true;
            },
            Availability::Missing => {
                push_name(&mut g.missing, name);
            },
            Availability::MissingVariant => {
                push_name(&mut g.missing_variant, name);
            },
            Availability::MissingReasoning => {
                push_name(&mut g.missing_reasoning, name);
            },
            Availability::MissingReasoningDetail => {
                push_name(&mut g.missing_detail, name);
            },
        }
        i = i + 1;
    }
    proof {
        assert(ps.subrange(0, ps.len() as int) =~= ps);
    }
    g
}

fn is_optional_variant(u: &PlaceholderUse) -> (r: bool)
    ensures
        r == optional_variant(u@),
{
    u.is_full && match &u.json_key {
        Some(jk) => str_eq(jk.as_str(), "variant"),
        None => false,
    } && ends_with(u.key.as_str(), "-variant")
}

/// Checks one placeholder use against every palette.
#[verifier::spinoff_prover]
#[verifier::rlimit(40)]
fn validate_use(u: &PlaceholderUse, configs: &ModelConfigs, file: &str, strict: bool, report: &mut ReportBuilder)
    requires
        old(report).wf(),
        configs_wf(configs@),
    ensures
        final(report).wf(),
        final(report).items() == old(report).items() + use_findings(u@, configs@, file@, strict),
{
    let g = palette_gaps(u.key.as_str(), configs);
    let optional = is_optional_variant(u);
    let path = u.path.as_str();
    if !g.found {
        if optional {
            let message = concat3("variant placeholder '", u.key.as_str(), "' is missing");
            report.warn_or_error(strict, to_owned_string(file), to_owned_string(path), "missing-variant", message);
        } else {
            let message = concat3("unknown placeholder '", u.key.as_str(), "'");
            report.push(Severity::Error, to_owned_string(file), to_owned_string(path), "unknown-placeholder", message);
        }
        return;
    }
    let ghost start = report.items();
    let ghost k = u.key@;
    let ghost p1 = palettes_finding(names_of(g.missing@), strict, file@, path@, "palette-mismatch"@, "placeholder '"@ + k + "' missing from palettes: "@);
    let ghost p2 = palettes_finding(
        names_of(g.missing_variant@),
        strict,
        file@,
        path@,
        if optional_variant(u@) { "missing-variant"@ } else { "palette-mismatch"@ },
        "variant placeholder '"@ + k + "' missing from palettes: "@,
    );
    let ghost p3 = palettes_finding(names_of(g.missing_reasoning@), strict, file@, path@, "missing-reasoning"@, "reasoning placeholder '"@ + k + "' missing from palettes: "@);
    let ghost p4 = palettes_finding(names_of(g.missing_detail@), strict, file@, path@, "missing-reasoning"@, "reasoning placeholder '"@ + k + "' missing from palettes: "@);
    report_palettes(
        &g.missing,
        strict,
        file,
        path,
        "palette-mismatch",
        concat3("placeholder '", u.key.as_str(), "' missing from palettes: "),
        report,
    );
    assert(report.items() == start + p1);
    let variant_kind = if optional {
        "missing-variant"
    } else {
        "palette-mismatch"
    };
    report_palettes(
        &g.missing_variant,
        strict,
        file,
        path,
        variant_kind,
        concat3("variant placeholder '", u.key.as_str(), "' missing from palettes: "),
        report,
    );
    assert(report.items() =~= start + p1 + p2);
    report_palettes(
        &g.missing_reasoning,
        strict,
        file,
        path,
        "missing-reasoning",
        concat3("reasoning placeholder '", u.key.as_str(), "' missing from palettes: "),
        report,
    );
    assert(report.items() =~= start + p1 + p2 + p3);
    report_palettes(
        &g.missing_detail,
        strict,
        file,
        path,
        "missing-reasoning",
        concat3("reasoning placeholder '", u.key.as_str(), "' missing from palettes: "),
        report,
    );
    assert(report.items() =~= start + (p1 + p2 + p3 + p4));
    assert(use_findings(u@, configs@, file@, strict) == p1 + p2 + p3 + p4);
}

/// The uses that are checked against the palettes: all but the `env:` ones.
pub open spec fn palette_uses_spec(uses: Seq<UseView>) -> Seq<UseView>
    decreases uses.len(),
{
    if uses.len() == 0 {
        Seq::empty()
    } else if seq_starts_with(uses.last().0, "env:"@) {
        palette_uses_spec(uses.drop_last())
    } else {
        palette_uses_spec(uses.drop_last()).push(uses.last())
    }
}

fn copy_use(u: &PlaceholderUse) -> (r: PlaceholderUse)
    ensures
        r@ == u@,
{
    PlaceholderUse {
        key: u.key.clone(),
        path: u.path.clone(),
        is_full: u.is_full,
        json_key: match &u.json_key {
            Some(k) => Some(k.clone()),
            None => None,
        },
    }
}

/// The uses other than the `env:` ones, in order.
pub fn palette_uses(uses: &Vec<PlaceholderUse>) -> (r: Vec<PlaceholderUse>)
    ensures
        uses_model(r@) == palette_uses_spec(uses_model(uses@)),
{
    let ghost us = uses_model(uses@);
    let mut r: Vec<PlaceholderUse> = Vec::new();
    let mut i: usize = 0;
    proof {
        assert(us.subrange(0, 0) =~= Seq::<UseView>::empty());
        assert(uses_model(r@) =~= Seq::<UseView>::empty());
    }
    while i < uses.len()
        invariant
            i <= uses@.len(),
            us == uses_model(uses@),
            uses_model(r@) == palette_uses_spec(us.subrange(0, i as int)),
        decreases uses.len() - i,
    {
        let ghost before = uses_model(r@);
        proof {
            let next = us.subrange(0, i + 1);
            assert(next.drop_last() =~= us.subrange(0, i as int));
            assert(next.last() == uses@[i as int]@);
        }
        if !starts_with(uses[i].key.as_str(), "env:") {
            r.push(copy_use(&uses[i]));
            proof {
                assert(uses_model(r@) =~= before.push(uses@[i as int]@));
            }
        }
        i = i + 1;
    }
    proof {
        assert(us.subrange(0, us.len() as int) =~= us);
    }
    r
}

/// Checks placeholder uses against the palettes.
pub fn validate_placeholders(
    uses: &Vec<PlaceholderUse>,
    configs: &ModelConfigs,
    file: &str,
    strict: bool,
    report: &mut ReportBuilder,
)
    requires
        old(report).wf(),
        configs_wf(configs@),
    ensures
        final(report).wf(),
        final(report).items() == old(report).items() + placeholder_findings(uses_model(uses@), configs@, file@, strict),
{
    let ghost us = uses_model(uses@);
    let ghost start = report.items();
    let mut i: usize = 0;
    proof {
        assert(us.subrange(0, 0) =~= Seq::<UseView>::empty());
        assert(start + Seq::<FindingView>::empty() =~= start);
    }
    while i < uses.len()
        invariant
            i <= uses@.len(),
            us == uses_model(uses@),
            configs_wf(configs@),
            report.wf(),
            report.items() == start + placeholder_findings(us.subrange(0, i as int), configs@, file@, strict),
        decreases uses.len() - i,
    {
        validate_use(&uses[i], configs, file, strict, report);
        proof {
            let next = us.subrange(0, i + 1);
            assert(next.drop_last() =~= us.subrange(0, i as int));
            assert(next.last() == uses@[i as int]@);
            assert(report.items() =~= start + placeholder_findings(next, configs@, file@, strict));
        }
        i = i + 1;
    }
    proof {
        assert(us.subrange(0, us.len() as int) =~= us);
    }
}


// ---------------------------------------------------------------------------
// What the caller read
// ---------------------------------------------------------------------------

/// What a directory entry is (following links).
#[derive(Debug, Clone, Copy, PartialEq, Eq, Structural)]
pub enum EntryKind {
    File,
    Dir,
    Other,
}

/// A template file of a template directory, and what loading it gave (the
/// template, or the text of the load error).
pub struct FragmentFile {
    pub name: String,
    pub loaded: Result<JsonValue, String>,
}

/// A directory entry or glob match, with what the caller read of it.
pub struct EntryInfo {
    /// The entry's path.
    pub path: String,
    pub kind: EntryKind,
    /// For a directory: its files with a template extension, sorted by name,
    /// or the text of the error that stopped listing it.
    pub fragments: Result<Vec<FragmentFile>, String>,
    /// For an entry taken as a template file: what loading it gave.
    pub loaded: Result<JsonValue, String>,
}

/// The model of a load result.
pub open spec fn load_view(r: Result<JsonValue, String>) -> Result<Json, Seq<char>> {
    match r {
        Ok(v) => Ok(v@),
        Err(m) => Err(m@),
    }
}

/// The model of a fragment file: its name and load result.
pub type FragView = (Seq<char>, Result<Json, Seq<char>>);

impl View for FragmentFile {
    type V = FragView;

    open spec fn view(&self) -> FragView {
        (self.name@, load_view(self.loaded))
    }
}

/// The model of a list of fragment files.
pub open spec fn frags_view(v: Seq<FragmentFile>) -> Seq<FragView> {
    Seq::new(v.len(), |i: int| v[i]@)
}

/// The model of an entry.
pub struct EntryView {
    pub path: Seq<char>,
    pub kind: EntryKind,
    pub fragments: Result<Seq<FragView>, Seq<char>>,
    pub loaded: Result<Json, Seq<char>>,
}

impl View for EntryInfo {
    type V = EntryView;

    open spec fn view(&self) -> EntryView {
        EntryView {
            path: self.path@,
            kind: self.kind,
            fragments: match self.fragments {
                Ok(v) => Ok(frags_view(v@)),
                Err(m) => Err(m@),
            },
            loaded: load_view(self.loaded),
        }
    }
}

/// A loaded value is well formed.
pub open spec fn load_wf(r: Result<Json, Seq<char>>) -> bool {
    r matches Ok(v) ==> v.wf()
}

/// The loaded values of an entry are well formed.
pub open spec fn entry_wf(e: EntryView) -> bool {
    &&& load_wf(e.loaded)
    &&& e.fragments matches Ok(fs) ==> forall|i: int| 0 <= i < fs.len() ==> load_wf(#[trigger] fs[i].1)
}

// ---------------------------------------------------------------------------
// Fragment files with the same stem
// ---------------------------------------------------------------------------

/// The names of fragment files.
pub open spec fn frag_names(fs: Seq<FragView>) -> Seq<Seq<char>> {
    Seq::new(fs.len(), |i: int| fs[i].0)
}

/// The stems of the names, sorted.
pub open spec fn stems_of(names: Seq<Seq<char>>) -> Seq<(Seq<char>, bool)>
    decreases names.len(),
{
    if names.len() == 0 {
        Seq::empty()
    } else {
        entries_put(stems_of(names.drop_last()), file_stem(names.last()), true)
    }
}

/// The extensions, in lower case and sorted, of the names with stem `stem`.
pub open spec fn exts_of(names: Seq<Seq<char>>, stem: Seq<char>) -> Seq<(Seq<char>, bool)>
    decreases names.len(),
{
    if names.len() == 0 {
        Seq::empty()
    } else {
        let n = names.last();
        if file_stem(n) == stem && file_extension(n) is Some {
            entries_put(exts_of(names.drop_last(), stem), seq_ascii_lower(file_extension(n)->Some_0), true)
        } else {
            exts_of(names.drop_last(), stem)
        }
    }
}

/// The keys of sorted members.
pub open spec fn keys_of(e: Seq<(Seq<char>, bool)>) -> Seq<Seq<char>> {
    Seq::new(e.len(), |i: int| e[i].0)
}

/// The finding for a stem with more than one extension.
pub open spec fn stem_findings(names: Seq<Seq<char>>, stem: Seq<char>, file: Seq<char>, strict: bool) -> Seq<FindingView> {
    let x = exts_of(names, stem);
    if x.len() > 1 {
        seq![
            (
                strict_severity(strict),
                file,
                "$"@,
                "ambiguous-fragment"@,
                "fragment \""@ + stem + "\" has multiple extensions: "@ + comma_list(keys_of(x)) + "; keep only one"@,
            ),
        ]
    } else {
        Seq::empty()
    }
}

/// Findings for the given stems, in order.
pub open spec fn stems_findings(names: Seq<Seq<char>>, stems: Seq<(Seq<char>, bool)>, file: Seq<char>, strict: bool) -> Seq<FindingView>
    decreases stems.len(),
{
    if stems.len() == 0 {
        Seq::empty()
    } else {
        stems_findings(names, stems.drop_last(), file, strict) + stem_findings(names, stems.last().0, file, strict)
    }
}

/// Fragment files of a directory that share a stem but not an extension,
/// one finding per stem, in stem order.
pub open spec fn ambiguous_fragment_findings(names: Seq<Seq<char>>, file: Seq<char>, strict: bool) -> Seq<FindingView> {
    stems_findings(names, stems_of(names), file, strict)
}

fn stems_map(frags: &Vec<FragmentFile>) -> (r: KeyedMap<bool>)
    ensures
        r@ == stems_of(frag_names(frags_view(frags@))),
        keys_sorted(r@),
{
    let ghost names = frag_names(frags_view(frags@));
    let mut m: KeyedMap<bool> = KeyedMap::new();
    let mut i: usize = 0;
    proof {
        assert(names.subrange(0, 0) =~= Seq::<Seq<char>>::empty());
    }
    while i < frags.len()
        invariant
            i <= frags@.len(),
            names == frag_names(frags_view(frags@)),
            m@ == stems_of(names.subrange(0, i as int)),
            keys_sorted(m@),
        decreases frags.len() - i,
    {
        proof {
            let next = names.subrange(0, i + 1);
            assert(next.drop_last() =~= names.subrange(0, i as int));
            assert(next.last() == frags@[i as int].name@);
        }
        m.insert(stem_of(frags[i].name.as_str()), true);
        i = i + 1;
    }
    proof {
        assert(names.subrange(0, names.len() as int) =~= names);
    }
    m
}

fn exts_map(frags: &Vec<FragmentFile>, stem: &str) -> (r: KeyedMap<bool>)
    ensures
        r@ == exts_of(frag_names(frags_view(frags@)), stem@),
        keys_sorted(r@),
{
    let ghost names = frag_names(frags_view(frags@));
    let mut m: KeyedMap<bool> = KeyedMap::new();
    let mut i: usize = 0;
    proof {
        assert(names.subrange(0, 0) =~= Seq::<Seq<char>>::empty());
    }
    while i < frags.len()
        invariant
            i <= frags@.len(),
            names == frag_names(frags_view(frags@)),
            m@ == exts_of(names.subrange(0, i as int), stem@),
            keys_sorted(m@),
        decreases frags.len() - i,
    {
        proof {
            let next = names.subrange(0, i + 1);
            assert(next.drop_last() =~= names.subrange(0, i as int));
            assert(next.last() == frags@[i as int].name@);
        }
        let name = frags[i].name.as_str();
        if str_eq(stem_of(name).as_str(), stem) {
            if let Some(ext) = extension_of(name) {
                m.insert(to_ascii_lowercase(ext.as_str()), true);
            }
        }
        i = i + 1;
    }
    proof {
        assert(names.subrange(0, names.len() as int) =~= names);
    }
    m
}

/// Reports fragment files of a directory that share a stem but not an
/// extension, one finding per stem, in stem order.
pub fn detect_ambiguous_fragments(frags: &Vec<FragmentFile>, file: &str, strict: bool, report: &mut ReportBuilder)
    requires
        old(report).wf(),
    ensures
        final(report).wf(),
        final(report).items() == old(report).items() + ambiguous_fragment_findings(
            frag_names(frags_view(frags@)),
            file@,
            strict,
        ),
{
    let ghost names = frag_names(frags_view(frags@));
    let stems = stems_map(frags);
    let ghost st = stems@;
    let ghost start = report.items();
    let mut i: usize = 0;
    proof {
        assert(st.subrange(0, 0) =~= Seq::<(Seq<char>, bool)>::empty());
        assert(start + Seq::<FindingView>::empty() =~= start);
    }
    while i < stems.entries.len()
        invariant
            i <= st.len(),
            st == stems@,
            names == frag_names(frags_view(frags@)),
            report.wf(),
            report.items() == start + stems_findings(names, st.subrange(0, i as int), file@, strict),
        decreases stems.entries.len() - i,
    {
        let stem = &stems.entries[i].0;
        let ghost before = report.items();
        let exts = exts_map(frags, stem.as_str());
        if exts.entries.len() > 1 {
            let keys = exts.keys();
            let mut message = concat3("fragment \"", stem.as_str(), "\" has multiple extensions: ");
            message.append(join_names(&keys).as_str());
            message.append("; keep only one");
            proof {
                assert(Seq::new(keys@.len(), |j: int| keys@[j]@) =~= keys_of(exts@));
            }
            report.warn_or_error(strict, to_owned_string(file), to_owned_string("$"), "ambiguous-fragment", message);
        } else {
            proof {
                assert(report.items() =~= before + Seq::<FindingView>::empty());
            }
        }
        proof {
            let next = st.subrange(0, i + 1);
            assert(next.drop_last() =~= st.subrange(0, i as int));
            assert(next.last().0 == stem@);
            assert(report.items() =~= start + stems_findings(names, next, file@, strict));
        }
        i = i + 1;
    }
    proof {
        assert(st.subrange(0, st.len() as int) =~= st);
    }
}

// ---------------------------------------------------------------------------
// Fragments that overwrite each other
// ---------------------------------------------------------------------------

/// Paths at which merging `overlay` into `base` replaces a different value:
/// members present on both sides are compared recursively, anything else
/// that differs is replaced.
pub open spec fn conflicts(base: Json, overlay: Json, path: Seq<char>) -> Seq<Seq<char>>
    decreases overlay, 1int,
{
    match overlay {
        Json::Object(oe) => match base {
            Json::Object(be) => conflict_members(be, oe, path),
            _ => seq![path],
        },
        _ => if base != overlay {
            seq![path]
        } else {
            Seq::empty()
        },
    }
}

pub open spec fn conflict_members(be: Entries, oe: Entries, path: Seq<char>) -> Seq<Seq<char>>
    decreases oe, 0int,
{
    if oe.len() == 0 {
        Seq::empty()
    } else {
        proof {
            assert(decreases_to!(oe => oe[oe.len() - 1]));
        }
        conflict_members(be, oe.drop_last(), path) + match entries_get(be, oe.last().0) {
            Some(bv) => conflicts(bv, oe.last().1, member_path(path, oe.last().0)),
            None => Seq::empty(),
        }
    }
}

/// The member of a well-formed object is well formed.
proof fn lemma_get_wf(e: Entries, k: Seq<char>)
    requires
        Json::Object(e).wf(),
    ensures
        entries_get(e, k) matches Some(v) ==> v.wf(),
{
    lemma_wf_members(Json::Object(e));
    if has_key(e, k) {
        let i = key_index(e, k);
        assert(0 <= i < e.len() && e[i].0 == k);
        assert(e[i].1.wf());
    }
}

/// Appends to `out` the paths at which merging `overlay` into `base`
/// replaces a different value.
#[verifier::loop_isolation(false)]
pub fn collect_merge_conflicts(base: &JsonValue, overlay: &JsonValue, path: String, out: &mut Vec<String>)
    requires
        base@.wf(),
    ensures
        Seq::new(final(out)@.len(), |i: int| final(out)@[i]@) == Seq::new(old(out)@.len(), |i: int| old(out)@[i]@) + conflicts(
            base@,
            overlay@,
            path@,
        ),
    decreases overlay,
{
    let ghost o0 = Seq::new(out@.len(), |i: int| out@[i]@);
    match overlay {
        JsonValue::Object(om) => {
            proof {
                lemma_object_view(om);
            }
            match base {
                JsonValue::Object(bm) => {
                    proof {
                        lemma_object_view(bm);
                        lemma_wf_members(base@);
                    }
                    let ghost oe = om@;
                    let mut i: usize = 0;
                    proof {
                        assert(oe.subrange(0, 0) =~= Seq::<(Seq<char>, Json)>::empty());
                        assert(o0 + Seq::<Seq<char>>::empty() =~= o0);
                    }
                    while i < om.entries.len()
                        invariant
                            i <= oe.len(),
                            oe == om@,
                            Seq::new(out@.len(), |j: int| out@[j]@) == o0 + conflict_members(bm@, oe.subrange(0, i as int), path@),
                        decreases om.entries.len() - i,
                    {
                        let key = &om.entries[i].0;
                        let child = &om.entries[i].1;
                        let ghost before = Seq::new(out@.len(), |j: int| out@[j]@);
                        proof {
                            assert(decreases_to!(overlay => om.entries@[i as int].1));
                            let next = oe.subrange(0, i + 1);
                            assert(next.drop_last() =~= oe.subrange(0, i as int));
                            assert(next.last() == (key@, child@));
                            lemma_get_wf(bm@, key@);
                        }
                        match bm.get(key.as_str()) {
                            Some(bv) => {
                                let child_path = concat3(path.as_str(), ".", key.as_str());
                                collect_merge_conflicts(bv, child, child_path, out);
                            },
                            None => {
                                proof {
                                    assert(Seq::new(out@.len(), |j: int| out@[j]@) =~= before + Seq::<Seq<char>>::empty());
                                }
                            },
                        }
                        proof {
                            let next = oe.subrange(0, i + 1);
                            assert(Seq::new(out@.len(), |j: int| out@[j]@) =~= o0 + conflict_members(bm@, next, path@));
                        }
                        i = i + 1;
                    }
                    proof {
                        assert(oe.subrange(0, oe.len() as int) =~= oe);
                    }
                },
                _ => {
                    out.push(path);
                    proof {
                        assert(Seq::new(out@.len(), |j: int| out@[j]@) =~= o0.push(path@));
                    }
                },
            }
        },
        _ => {
            if !json_eq(base, overlay) {
                out.push(path);
                proof {
                    assert(Seq::new(out@.len(), |j: int| out@[j]@) =~= o0.push(path@));
                }
            } else {
                proof {
                    assert(Seq::new(out@.len(), |j: int| out@[j]@) =~= o0 + Seq::<Seq<char>>::empty());
                }
            }
        },
    }
}

/// The findings for the paths a fragment overwrites.
pub open spec fn overwrite_findings(paths: Seq<Seq<char>>, name: Seq<char>, file: Seq<char>, strict: bool) -> Seq<FindingView>
    decreases paths.len(),
{
    if paths.len() == 0 {
        Seq::empty()
    } else {
        overwrite_findings(paths.drop_last(), name, file, strict).push(
            (
                strict_severity(strict),
                file,
                paths.last(),
                "fragment-merge-conflict"@,
                "fragment \""@ + name + "\" overwrites existing value at "@ + paths.last(),
            ),
        )
    }
}

/// Fragments merged in order from `first`, fragments that failed to load
/// skipped, with the findings for what each one overwrites.
pub open spec fn fragment_fold(first: Json, rest: Seq<FragView>, file: Seq<char>, strict: bool) -> (Json, Seq<FindingView>)
    decreases rest.len(),
{
    if rest.len() == 0 {
        (first, Seq::empty())
    } else {
        let (m, f) = fragment_fold(first, rest.drop_last(), file, strict);
        match rest.last().1 {
            Err(_) => (m, f),
            Ok(o) => (merge(m, o), f + overwrite_findings(conflicts(m, o, "$"@), rest.last().0, file, strict)),
        }
    }
}

/// Findings for fragments of a directory that overwrite values of the
/// fragments before them; nothing when there are fewer than two fragments
/// or the first does not load.
pub open spec fn merge_conflict_findings(frags: Seq<FragView>, file: Seq<char>, strict: bool) -> Seq<FindingView> {
    if frags.len() < 2 {
        Seq::empty()
    } else {
        match frags[0].1 {
            Err(_) => Seq::empty(),
            Ok(first) => fragment_fold(first, frags.subrange(1, frags.len() as int), file, strict).1,
        }
    }
}

fn copy_value(v: &JsonValue) -> (r: JsonValue)
    ensures
        r@ == v@,
{
    v.deep_clone()
}

/// Reports, for each fragment of a directory, the values of the fragments
/// before it that it overwrites.
pub fn detect_fragment_merge_conflicts(frags: &Vec<FragmentFile>, file: &str, strict: bool, report: &mut ReportBuilder)
    requires
        old(report).wf(),
        forall|i: int| 0 <= i < frags@.len() ==> load_wf(#[trigger] frags@[i]@.1),
    ensures
        final(report).wf(),
        final(report).items() == old(report).items() + merge_conflict_findings(frags_view(frags@), file@, strict),
{
    let ghost fs = frags_view(frags@);
    let ghost start = report.items();
    if frags.len() < 2 {
        proof {
            assert(report.items() =~= start + Seq::<FindingView>::empty());
        }
        return;
    }
    proof {
        assert(fs[0] == frags@[0]@);
    }
    let mut merged = match &frags[0].loaded {
        Ok(v) => copy_value(v),
        Err(_) => {
            proof {
                assert(report.items() =~= start + Seq::<FindingView>::empty());
            }
            return;
        },
    };
    let ghost first = merged@;
    let ghost rest = fs.subrange(1, fs.len() as int);
    let mut i: usize = 1;
    proof {
        assert(rest.subrange(0, 0) =~= Seq::<FragView>::empty());
        assert(start + Seq::<FindingView>::empty() =~= start);
        assert(load_wf(frags@[0]@.1));
    }
    while i < frags.len()
        invariant
            1 <= i <= frags@.len(),
            fs == frags_view(frags@),
            rest == fs.subrange(1, fs.len() as int),
            forall|j: int| 0 <= j < frags@.len() ==> load_wf(#[trigger] frags@[j]@.1),
            first.wf(),
            merged@.wf(),
            report.wf(),
            merged@ == fragment_fold(first, rest.subrange(0, i - 1), file@, strict).0,
            report.items() == start + fragment_fold(first, rest.subrange(0, i - 1), file@, strict).1,
        decreases frags.len() - i,
    {
        let ghost before = report.items();
        let ghost m0 = merged@;
        proof {
            let next = rest.subrange(0, i as int);
            assert(next.drop_last() =~= rest.subrange(0, i - 1));
            assert(next.last() == frags@[i as int]@);
            assert(load_wf(frags@[i as int]@.1));
        }
        match &frags[i].loaded {
            Err(_) => {},
            Ok(overlay) => {
                let mut paths: Vec<String> = Vec::new();
                collect_merge_conflicts(&merged, overlay, to_owned_string("$"), &mut paths);
                let ghost ps = Seq::new(paths@.len(), |j: int| paths@[j]@);
                proof {
                    assert(ps =~= Seq::<Seq<char>>::empty() + conflicts(m0, overlay@, "$"@));
                }
                let name = &frags[i].name;
                let mut k: usize = 0;
                proof {
                    assert(ps.subrange(0, 0) =~= Seq::<Seq<char>>::empty());
                    assert(before + Seq::<FindingView>::empty() =~= before);
                }
                while k < paths.len()
                    invariant
                        k <= paths@.len(),
                        ps == Seq::new(paths@.len(), |j: int| paths@[j]@),
                        report.wf(),
                        report.items() == before + overwrite_findings(ps.subrange(0, k as int), name@, file@, strict),
                    decreases paths.len() - k,
                {
                    let mut message = concat3("fragment \"", name.as_str(), "\" overwrites existing value at ");
                    message.append(paths[k].as_str());
                    report.warn_or_error(strict, to_owned_string(file), to_owned_string(paths[k].as_str()), "fragment-merge-conflict", message);
                    proof {
                        let next = ps.subrange(0, k + 1);
                        assert(next.drop_last() =~= ps.subrange(0, k as int));
                        assert(next.last() == paths@[k as int]@);
                    }
                    k = k + 1;
                }
                proof {
                    assert(ps.subrange(0, ps.len() as int) =~= ps);
                }
                deep_merge(&mut merged, overlay);
            },
        }
        i = i + 1;
    }
    proof {
        assert(rest.subrange(0, rest.len() as int) =~= rest);
    }
}

// ---------------------------------------------------------------------------
// Loading a template directory
// ---------------------------------------------------------------------------

/// The first load error among the fragments.
pub open spec fn first_error(fs: Seq<FragView>) -> Option<Seq<char>>
    decreases fs.len(),
{
    if fs.len() == 0 {
        None
    } else {
        match first_error(fs.drop_last()) {
            Some(e) => Some(e),
            None => match fs.last().1 {
                Err(e) => Some(e),
                Ok(_) => None,
            },
        }
    }
}

/// The loaded values of fragments.
pub open spec fn frag_values(fs: Seq<FragView>) -> Seq<Json> {
    Seq::new(fs.len(), |i: int| fs[i].1->Ok_0)
}

/// What loading a template directory gives: its fragments merged in name
/// order; an error when it cannot be listed, has no fragment, or a fragment
/// fails to load (the first such).
pub open spec fn dir_load(dir: Seq<char>, frags: Result<Seq<FragView>, Seq<char>>) -> Result<Json, Seq<char>> {
    match frags {
        Err(_) => Err("failed to read template at "@ + dir),
        Ok(fs) => if fs.len() == 0 {
            Err("template directory is empty: "@ + dir)
        } else {
            match first_error(fs) {
                Some(e) => Err(e),
                None => Ok(merge_all(frag_values(fs)[0], frag_values(fs).subrange(1, fs.len() as int))),
            }
        },
    }
}

/// What loading an entry as a template gives.
pub open spec fn entry_load(e: EntryView) -> Result<Json, Seq<char>> {
    if e.kind == EntryKind::Dir {
        dir_load(e.path, e.fragments)
    } else {
        e.loaded
    }
}

/// Loads a template directory from its fragments.
#[verifier::loop_isolation(false)]
pub fn load_dir(path: &str, fragments: &Result<Vec<FragmentFile>, String>) -> (r: Result<JsonValue, String>)
    requires
        fragments matches Ok(v) ==> forall|i: int| 0 <= i < v@.len() ==> load_wf(#[trigger] v@[i]@.1),
    ensures
        load_view(r) == dir_load(
            path@,
            match fragments {
                Ok(v) => Ok(frags_view(v@)),
                Err(m) => Err(m@),
            },
        ),
        load_wf(load_view(r)),
{
    let frags = match fragments {
        Err(_) => {
            return Err(crate::strings::concat("failed to read template at ", path));
        },
        Ok(v) => v,
    };
    let ghost fs = frags_view(frags@);
    if frags.len() == 0 {
        return Err(crate::strings::concat("template directory is empty: ", path));
    }
    let mut merged = match &frags[0].loaded {
        Ok(v) => copy_value(v),
        Err(e) => {
            proof {
                assert(fs.subrange(0, 1).drop_last() =~= Seq::<FragView>::empty());
                assert(first_error(fs.subrange(0, 1).drop_last()) is None);
                assert(fs.subrange(0, 1).last() == fs[0]);
                assert(fs[0] == frags@[0]@);
                assert(first_error(fs.subrange(0, 1)) == Some(e@));
                lemma_first_error_prefix(fs, 1);
            }
            return Err(to_owned_string(e.as_str()));
        },
    };
    let ghost vals = frag_values(fs);
    let mut i: usize = 1;
    proof {
        assert(fs.subrange(0, 1).drop_last() =~= Seq::<FragView>::empty());
        assert(first_error(fs.subrange(0, 1).drop_last()) is None);
        assert(fs.subrange(0, 1).last() == fs[0]);
        assert(fs[0] == frags@[0]@);
        assert(first_error(fs.subrange(0, 1)) is None);
        assert(vals.subrange(1, 1) =~= Seq::<Json>::empty());
        assert(load_wf(frags@[0]@.1));
    }
    while i < frags.len()
        invariant
            1 <= i <= frags@.len(),
            fs == frags_view(frags@),
            vals == frag_values(fs),
            forall|j: int| 0 <= j < frags@.len() ==> load_wf(#[trigger] frags@[j]@.1),
            first_error(fs.subrange(0, i as int)) is None,
            merged@ == merge_all(vals[0], vals.subrange(1, i as int)),
            merged@.wf(),
        decreases frags.len() - i,
    {
        proof {
            let next = fs.subrange(0, i + 1);
            assert(next.drop_last() =~= fs.subrange(0, i as int));
            assert(next.last() == frags@[i as int]@);
            assert(load_wf(frags@[i as int]@.1));
        }
        match &frags[i].loaded {
            Err(e) => {
                proof {
                    let next = fs.subrange(0, i + 1);
                    assert(first_error(next) == Some(e@));
                    lemma_first_error_prefix(fs, i + 1);
                }
                return Err(to_owned_string(e.as_str()));
            },
            Ok(overlay) => {
                deep_merge(&mut merged, overlay);
                proof {
                    let vs = vals.subrange(1, i + 1);
                    assert(vs.drop_last() =~= vals.subrange(1, i as int));
                    assert(vs.last() == overlay@);
                }
            },
        }
        i = i + 1;
    }
    proof {
        assert(fs.subrange(0, fs.len() as int) =~= fs);
    }
    Ok(merged)
}

/// An error in a prefix is the first error of the whole.
proof fn lemma_first_error_prefix(fs: Seq<FragView>, n: int)
    requires
        0 <= n <= fs.len(),
        first_error(fs.subrange(0, n)) is Some,
    ensures
        first_error(fs) == first_error(fs.subrange(0, n)),
    decreases fs.len() - n,
{
    if n < fs.len() {
        let next = fs.subrange(0, n + 1);
        assert(next.drop_last() =~= fs.subrange(0, n));
        lemma_first_error_prefix(fs, n + 1);
    } else {
        assert(fs.subrange(0, n) =~= fs);
    }
}


// ---------------------------------------------------------------------------
// Template discovery
// ---------------------------------------------------------------------------

/// Entries of a directory or matches of a glob, each read or failed.
pub type EntryList = Seq<Result<EntryView, Seq<char>>>;

/// The model of a list of entries.
pub open spec fn entry_list_view(v: Seq<Result<EntryInfo, String>>) -> EntryList {
    Seq::new(
        v.len(),
        |i: int|
            match v[i] {
                Ok(e) => Ok(e@),
                Err(m) => Err(m@),
            },
    )
}

/// The model of a listing or glob result.
pub open spec fn listing_view(l: Result<Vec<Result<EntryInfo, String>>, String>) -> Result<EntryList, Seq<char>> {
    match l {
        Ok(v) => Ok(entry_list_view(v@)),
        Err(m) => Err(m@),
    }
}

/// Every entry read is well formed.
pub open spec fn entry_list_wf(es: EntryList) -> bool {
    forall|i: int| 0 <= i < es.len() ==> (#[trigger] es[i] matches Ok(e) ==> entry_wf(e))
}

/// A listing whose entries are well formed.
pub open spec fn listing_wf(l: Result<EntryList, Seq<char>>) -> bool {
    l matches Ok(es) ==> entry_list_wf(es)
}

/// The key by which paths are ordered: the path with `/` placed before
/// every other character, which orders paths component by component
/// (`Path`'s order).
pub open spec fn path_key(p: Seq<char>) -> Seq<char> {
    Seq::new(p.len(), |i: int| if p[i] == '/' { '\0' } else { p[i] })
}

/// Discovered templates, by path key.
pub type TemplateSet = Seq<(Seq<char>, EntryView)>;

/// The loaded values of discovered templates are well formed.
pub open spec fn set_wf(s: TemplateSet) -> bool {
    forall|j: int| 0 <= j < s.len() ==> entry_wf(#[trigger] s[j].1)
}

/// `set` with `e` added, unless a template with its path is there already.
pub open spec fn add_template(set: TemplateSet, e: Option<EntryView>) -> TemplateSet {
    match e {
        Some(x) => if has_key(set, path_key(x.path)) {
            set
        } else {
            entries_put(set, path_key(x.path), x)
        },
        None => set,
    }
}

/// What an entry contributes: the template it is, if any, and findings.
pub type EntryOut = (Option<EntryView>, Seq<FindingView>);

/// Discovered templates and findings.
pub type Discovered = (TemplateSet, Seq<FindingView>);

/// The template directory of a config directory.
pub open spec fn template_dir_of(config_dir: Seq<char>) -> Seq<char> {
    join_path(config_dir, "template.d"@)
}

/// Number of template files of a directory entry.
pub open spec fn frag_count(e: EntryView) -> nat {
    match e.fragments {
        Ok(fs) => fs.len(),
        Err(_) => 0,
    }
}

/// Names of the template files of a directory entry.
pub open spec fn dir_frag_names(e: EntryView) -> Seq<Seq<char>> {
    match e.fragments {
        Ok(fs) => frag_names(fs),
        Err(_) => Seq::empty(),
    }
}

/// Entry `j` is a template file named `<stem>.json|yaml|yml`.
pub open spec fn sibling_at(es: EntryList, j: int, stem: Seq<char>) -> bool {
    &&& es[j] is Ok
    &&& es[j]->Ok_0.kind == EntryKind::File
    &&& {
        let n = last_component(es[j]->Ok_0.path);
        n == stem + ".json"@ || n == stem + ".yaml"@ || n == stem + ".yml"@
    }
}

/// The listing has a template file with stem `stem`.
pub open spec fn has_sibling_file(es: EntryList, stem: Seq<char>) -> bool {
    exists|j: int| 0 <= j < es.len() && #[trigger] sibling_at(es, j, stem)
}

/// An entry of `template.d`: a file with a template extension is a
/// template; a directory `<stem>.d` is one unless a file of that stem
/// exists too or it has no template file; other files are unsupported.
pub open spec fn listing_entry(es: EntryList, i: int, config_dir: Seq<char>, strict: bool) -> EntryOut {
    match es[i] {
        Err(m) => (
            None,
            seq![(Severity::Error, shown_path(template_dir_of(config_dir), config_dir), "$"@, "template-dir-read"@, m)],
        ),
        Ok(e) => {
            let name = last_component(e.path);
            let shown = shown_path(e.path, config_dir);
            if template_file_name(name) {
                (Some(e), Seq::empty())
            } else if e.kind == EntryKind::Dir {
                if seq_ends_with(name, ".d"@) && name.len() > 2 {
                    let stem = before(name, ".d"@);
                    if has_sibling_file(es, stem) {
                        (
                            None,
                            seq![
                                (
                                    Severity::Error,
                                    shown,
                                    "$"@,
                                    "ambiguous-template"@,
                                    "ambiguous template \""@ + stem + "\": both file and directory exist; remove one"@,
                                ),
                            ],
                        )
                    } else if frag_count(e) == 0 {
                        (
                            None,
                            seq![(Severity::Error, shown, "$"@, "empty-template-dir"@, "template directory is empty: "@ + name)],
                        )
                    } else {
                        (Some(e), ambiguous_fragment_findings(dir_frag_names(e), shown, strict))
                    }
                } else {
                    (None, Seq::empty())
                }
            } else if e.kind == EntryKind::File {
                (
                    None,
                    seq![
                        (
                            strict_severity(strict),
                            shown,
                            "$"@,
                            "unsupported-template"@,
                            "template extension is not supported"@,
                        ),
                    ],
                )
            } else {
                (None, Seq::empty())
            }
        },
    }
}

/// The first `n` entries of `template.d`, in order.
pub open spec fn listing_upto(es: EntryList, n: nat, config_dir: Seq<char>, strict: bool) -> Discovered
    decreases n,
{
    if n == 0 {
        (Seq::empty(), Seq::empty())
    } else {
        let (set, f) = listing_upto(es, (n - 1) as nat, config_dir, strict);
        let (c, g) = listing_entry(es, n - 1, config_dir, strict);
        (add_template(set, c), f + g)
    }
}

/// Templates of `template.d`, or an error when it cannot be listed.
pub open spec fn listing_phase(config_dir: Seq<char>, listing: Result<EntryList, Seq<char>>, strict: bool) -> Discovered {
    match listing {
        Err(m) => (
            Seq::empty(),
            seq![(Severity::Error, shown_path(template_dir_of(config_dir), config_dir), "$"@, "missing-template-dir"@, m)],
        ),
        Ok(es) => listing_upto(es, es.len(), config_dir, strict),
    }
}

/// A pattern as globbed: absolute, or relative to the config directory.
pub open spec fn resolved_pattern(config_dir: Seq<char>, pattern: Seq<char>) -> Seq<char> {
    if seq_starts_with(pattern, "/"@) {
        pattern
    } else {
        join_path(config_dir, pattern)
    }
}

/// The name of a path for messages.
pub open spec fn shown_name(path: Seq<char>) -> Seq<char> {
    if last_component(path).len() == 0 {
        "?"@
    } else {
        last_component(path)
    }
}

/// A glob match: a file with a template extension, or a directory with a
/// template file, is a template; other files are unsupported and empty
/// directories an error.
pub open spec fn glob_entry(r: Result<EntryView, Seq<char>>, resolved: Seq<char>, config_dir: Seq<char>, strict: bool) -> EntryOut {
    match r {
        Err(m) => (None, seq![(Severity::Error, resolved, "$"@, "template-glob"@, m)]),
        Ok(e) => {
            let shown = shown_path(e.path, config_dir);
            if e.kind == EntryKind::File {
                if template_file_name(last_component(e.path)) {
                    (Some(e), Seq::empty())
                } else {
                    (
                        None,
                        seq![
                            (
                                strict_severity(strict),
                                shown,
                                "$"@,
                                "unsupported-template"@,
                                "template extension is not supported"@,
                            ),
                        ],
                    )
                }
            } else if e.kind == EntryKind::Dir {
                if frag_count(e) > 0 {
                    (Some(e), ambiguous_fragment_findings(dir_frag_names(e), shown, strict))
                } else {
                    (
                        None,
                        seq![
                            (
                                Severity::Error,
                                shown,
                                "$"@,
                                "empty-template-dir"@,
                                "template directory is empty: "@ + shown_name(e.path),
                            ),
                        ],
                    )
                }
            } else {
                (None, Seq::empty())
            }
        },
    }
}

/// The first `n` matches of a glob, added to `set`.
pub open spec fn glob_upto(set: TemplateSet, es: EntryList, n: nat, resolved: Seq<char>, config_dir: Seq<char>, strict: bool) -> Discovered
    decreases n,
{
    if n == 0 {
        (set, Seq::empty())
    } else {
        let (s, f) = glob_upto(set, es, (n - 1) as nat, resolved, config_dir, strict);
        let (c, g) = glob_entry(es[n - 1], resolved, config_dir, strict);
        (add_template(s, c), f + g)
    }
}

/// Some match was read.
pub open spec fn any_ok(es: EntryList) -> bool {
    exists|i: int| 0 <= i < es.len() && #[trigger] es[i] is Ok
}

/// The warning for a pattern that matched nothing.
pub open spec fn no_match_finding(resolved: Seq<char>, strict: bool) -> FindingView {
    (strict_severity(strict), resolved, "$"@, "missing-template"@, "no templates matched glob"@)
}

/// A pattern's matches added to `set`; a warning when nothing matched.
pub open spec fn pattern_out(set: TemplateSet, pattern: Seq<char>, globbed: Result<EntryList, Seq<char>>, config_dir: Seq<char>, strict: bool) -> Discovered {
    let resolved = resolved_pattern(config_dir, pattern);
    match globbed {
        Err(m) => (
            set,
            seq![(Severity::Error, resolved, "$"@, "template-glob"@, m), no_match_finding(resolved, strict)],
        ),
        Ok(es) => {
            let (s, f) = glob_upto(set, es, es.len(), resolved, config_dir, strict);
            (s, if any_ok(es) { f } else { f.push(no_match_finding(resolved, strict)) })
        },
    }
}

/// The first `n` patterns, in order.
pub open spec fn patterns_upto(
    patterns: Seq<Seq<char>>,
    globs: Seq<Result<EntryList, Seq<char>>>,
    n: nat,
    config_dir: Seq<char>,
    strict: bool,
) -> Discovered
    decreases n,
{
    if n == 0 {
        (Seq::empty(), Seq::empty())
    } else {
        let (s, f) = patterns_upto(patterns, globs, (n - 1) as nat, config_dir, strict);
        let (s2, g) = pattern_out(s, patterns[n - 1], globs[n - 1], config_dir, strict);
        (s2, f + g)
    }
}

/// The templates to validate, in path order, and the discovery findings:
/// every template of `template.d` when no pattern is given, otherwise the
/// matches of each pattern.
pub open spec fn discovery(
    config_dir: Seq<char>,
    patterns: Seq<Seq<char>>,
    listing: Result<EntryList, Seq<char>>,
    globs: Seq<Result<EntryList, Seq<char>>>,
    strict: bool,
) -> Discovered {
    if patterns.len() == 0 {
        listing_phase(config_dir, listing, strict)
    } else {
        patterns_upto(patterns, globs, patterns.len(), config_dir, strict)
    }
}

fn path_key_of(p: &str) -> (r: String)
    ensures
        r@ == path_key(p@),
{
    let cs = crate::strings::chars_of(p);
    let mut out: Vec<char> = Vec::new();
    let mut i: usize = 0;
    while i < cs.len()
        invariant
            i <= cs@.len(),
            cs@ == p@,
            out@.len() == i,
            forall|j: int| 0 <= j < i ==> out@[j] == (if p@[j] == '/' { '\0' } else { p@[j] }),
        decreases cs.len() - i,
    {
        if cs[i] == '/' {
            out.push('\0');
        } else {
            out.push(cs[i]);
        }
        i = i + 1;
    }
    proof {
        assert(out@ =~= path_key(p@));
    }
    crate::strings::string_from_chars(out.as_slice())
}

/// Adds a discovered template unless its path is there already.
fn add_to_set<'a>(set: &mut KeyedMap<&'a EntryInfo>, e: &'a EntryInfo)
    requires
        keys_sorted(old(set)@),
        set_wf(old(set)@),
        entry_wf(e@),
    ensures
        final(set)@ == add_template(old(set)@, Some(e@)),
        keys_sorted(final(set)@),
        set_wf(final(set)@),
{
    let key = path_key_of(e.path.as_str());
    if !set.contains_key(key.as_str()) {
        let ghost s0 = set@;
        set.insert(key, e);
        proof {
            lemma_put_sorted(s0, key@, e@);
            assert forall|j: int| 0 <= j < set@.len() implies entry_wf(#[trigger] set@[j].1) by {
                if set@[j] != (key@, e@) {
                    assert(has_entry(s0, set@[j]));
                    let t = choose|t: int| 0 <= t < s0.len() && s0[t] == set@[j];
                    assert(entry_wf(s0[t].1));
                }
            }
        }
    }
}

fn has_sibling(es: &Vec<Result<EntryInfo, String>>, stem: &str) -> (r: bool)
    ensures
        r == has_sibling_file(entry_list_view(es@), stem@),
{
    let ghost ev = entry_list_view(es@);
    let json_name = concat3(stem, ".", "json");
    let yaml_name = concat3(stem, ".", "yaml");
    let yml_name = concat3(stem, ".", "yml");
    proof {
        reveal_strlit(".");
        reveal_strlit("json");
        reveal_strlit("yaml");
        reveal_strlit("yml");
        reveal_strlit(".json");
        reveal_strlit(".yaml");
        reveal_strlit(".yml");
        assert(json_name@ =~= stem@ + ".json"@);
        assert(yaml_name@ =~= stem@ + ".yaml"@);
        assert(yml_name@ =~= stem@ + ".yml"@);
    }
    let mut i: usize = 0;
    while i < es.len()
        invariant
            i <= es@.len(),
            ev == entry_list_view(es@),
            json_name@ == stem@ + ".json"@,
            yaml_name@ == stem@ + ".yaml"@,
            yml_name@ == stem@ + ".yml"@,
            forall|j: int| 0 <= j < i ==> !sibling_at(ev, j, stem@),
        decreases es.len() - i,
    {
        if let Ok(f) = &es[i] {
            if f.kind == EntryKind::File {
                let n = file_name_of(f.path.as_str());
                if str_eq(n.as_str(), json_name.as_str()) || str_eq(n.as_str(), yaml_name.as_str())
                    || str_eq(n.as_str(), yml_name.as_str()) {
                    assert(sibling_at(ev, i as int, stem@));
                    return true;
                }
            }
        }
        i = i + 1;
    }
    false
}

fn frag_len(e: &EntryInfo) -> (r: usize)
    ensures
        r == frag_count(e@),
{
    match &e.fragments {
        Ok(v) => v.len(),
        Err(_) => 0,
    }
}

/// Reports ambiguous fragments of a directory entry.
fn check_dir_fragments(e: &EntryInfo, shown: &str, strict: bool, report: &mut ReportBuilder)
    requires
        old(report).wf(),
    ensures
        final(report).wf(),
        final(report).items() == old(report).items() + ambiguous_fragment_findings(dir_frag_names(e@), shown@, strict),
{
    match &e.fragments {
        Ok(v) => detect_ambiguous_fragments(v, shown, strict, report),
        Err(_) => {
            proof {
                assert(stems_of(Seq::<Seq<char>>::empty()) =~= Seq::<(Seq<char>, bool)>::empty());
                assert(report.items() =~= report.items() + Seq::<FindingView>::empty());
            }
        },
    }
}

/// One entry of `template.d`.
fn discover_listing_entry<'a>(
    es: &'a Vec<Result<EntryInfo, String>>,
    i: usize,
    config_dir: &str,
    strict: bool,
    set: &mut KeyedMap<&'a EntryInfo>,
    report: &mut ReportBuilder,
)
    requires
        i < es@.len(),
        old(report).wf(),
        keys_sorted(old(set)@),
        set_wf(old(set)@),
        entry_list_wf(entry_list_view(es@)),
    ensures
        final(report).wf(),
        keys_sorted(final(set)@),
        set_wf(final(set)@),
        final(set)@ == add_template(old(set)@, listing_entry(entry_list_view(es@), i as int, config_dir@, strict).0),
        final(report).items() == old(report).items() + listing_entry(entry_list_view(es@), i as int, config_dir@, strict).1,
{
    let ghost ev = entry_list_view(es@);
    let ghost r0 = report.items();
    match &es[i] {
        Err(m) => {
            let td = join(config_dir, "template.d");
            report.push(Severity::Error, display_path(td.as_str(), config_dir), to_owned_string("$"), "template-dir-read", to_owned_string(m.as_str()));
        },
        Ok(e) => {
            assert(ev[i as int] == Ok::<EntryView, Seq<char>>(e@));
            assert(entry_wf(e@));
            let name = file_name_of(e.path.as_str());
            let shown = display_path(e.path.as_str(), config_dir);
            if is_template_extension(name.as_str()) {
                add_to_set(set, e);
                proof {
                    assert(report.items() =~= r0 + Seq::<FindingView>::empty());
                }
            } else if e.kind == EntryKind::Dir {
                proof {
                    reveal_strlit(".d");
                }
                match strip_suffix(name.as_str(), ".d") {
                    Some(stem) => {
                        if crate::strings::chars_of(stem.as_str()).len() == 0 {
                            proof {
                                assert(report.items() =~= r0 + Seq::<FindingView>::empty());
                            }
                            return;
                        }
                        if has_sibling(es, stem.as_str()) {
                            let mut message = concat3("ambiguous template \"", stem.as_str(), "\": both file and directory exist; remove one");
                            report.push(Severity::Error, shown, to_owned_string("$"), "ambiguous-template", message);
                        } else if frag_len(e) == 0 {
                            let message = crate::strings::concat("template directory is empty: ", name.as_str());
                            report.push(Severity::Error, shown, to_owned_string("$"), "empty-template-dir", message);
                        } else {
                            check_dir_fragments(e, shown.as_str(), strict, report);
                            add_to_set(set, e);
                        }
                    },
                    None => {
                        proof {
                            assert(report.items() =~= r0 + Seq::<FindingView>::empty());
                        }
                    },
                }
            } else if e.kind == EntryKind::File {
                report.warn_or_error(strict, shown, to_owned_string("$"), "unsupported-template", to_owned_string("template extension is not supported"));
            } else {
                proof {
                    assert(report.items() =~= r0 + Seq::<FindingView>::empty());
                }
            }
        },
    }
}


/// Every template of `template.d`.
fn discover_listing<'a>(
    listing: &'a Result<Vec<Result<EntryInfo, String>>, String>,
    config_dir: &str,
    strict: bool,
    set: &mut KeyedMap<&'a EntryInfo>,
    report: &mut ReportBuilder,
)
    requires
        old(report).wf(),
        old(set)@ == Seq::<(Seq<char>, EntryView)>::empty(),
        listing_wf(listing_view(*listing)),
    ensures
        final(report).wf(),
        keys_sorted(final(set)@),
        set_wf(final(set)@),
        final(set)@ == listing_phase(config_dir@, listing_view(*listing), strict).0,
        final(report).items() == old(report).items() + listing_phase(config_dir@, listing_view(*listing), strict).1,
{
    let ghost r0 = report.items();
    match listing {
        Err(m) => {
            let td = join(config_dir, "template.d");
            report.push(Severity::Error, display_path(td.as_str(), config_dir), to_owned_string("$"), "missing-template-dir", to_owned_string(m.as_str()));
        },
        Ok(es) => {
            let ghost ev = entry_list_view(es@);
            let mut i: usize = 0;
            proof {
                assert(r0 + Seq::<FindingView>::empty() =~= r0);
            }
            while i < es.len()
                invariant
                    i <= es@.len(),
                    ev == entry_list_view(es@),
                    report.wf(),
                    keys_sorted(set@),
                    set_wf(set@),
                    entry_list_wf(ev),
                    set@ == listing_upto(ev, i as nat, config_dir@, strict).0,
                    report.items() == r0 + listing_upto(ev, i as nat, config_dir@, strict).1,
                decreases es.len() - i,
            {
                discover_listing_entry(es, i, config_dir, strict, set, report);
                i = i + 1;
            }
        },
    }
}

/// One glob match.
fn discover_glob_entry<'a>(
    r: &'a Result<EntryInfo, String>,
    resolved: &str,
    config_dir: &str,
    strict: bool,
    set: &mut KeyedMap<&'a EntryInfo>,
    report: &mut ReportBuilder,
)
    requires
        old(report).wf(),
        keys_sorted(old(set)@),
        set_wf(old(set)@),
        r matches Ok(e) ==> entry_wf(e@),
    ensures
        final(report).wf(),
        keys_sorted(final(set)@),
        set_wf(final(set)@),
        final(set)@ == add_template(
            old(set)@,
            glob_entry(
                match *r {
                    Ok(e) => Ok(e@),
                    Err(m) => Err(m@),
                },
                resolved@,
                config_dir@,
                strict,
            ).0,
        ),
        final(report).items() == old(report).items() + glob_entry(
            match *r {
                Ok(e) => Ok(e@),
                Err(m) => Err(m@),
            },
            resolved@,
            config_dir@,
            strict,
        ).1,
{
    let ghost r0 = report.items();
    match r {
        Err(m) => {
            report.push(Severity::Error, to_owned_string(resolved), to_owned_string("$"), "template-glob", to_owned_string(m.as_str()));
        },
        Ok(e) => {
            let shown = display_path(e.path.as_str(), config_dir);
            if e.kind == EntryKind::File {
                let name = file_name_of(e.path.as_str());
                if is_template_extension(name.as_str()) {
                    add_to_set(set, e);
                    proof {
                        assert(report.items() =~= r0 + Seq::<FindingView>::empty());
                    }
                } else {
                    report.warn_or_error(strict, shown, to_owned_string("$"), "unsupported-template", to_owned_string("template extension is not supported"));
                }
            } else if e.kind == EntryKind::Dir {
                if frag_len(e) > 0 {
                    check_dir_fragments(e, shown.as_str(), strict, report);
                    add_to_set(set, e);
                } else {
                    let name = file_name_of(e.path.as_str());
                    let shown_nm = if crate::strings::chars_of(name.as_str()).len() == 0 {
                        to_owned_string("?")
                    } else {
                        name
                    };
                    let message = crate::strings::concat("template directory is empty: ", shown_nm.as_str());
                    report.push(Severity::Error, shown, to_owned_string("$"), "empty-template-dir", message);
                }
            } else {
                proof {
                    assert(report.items() =~= r0 + Seq::<FindingView>::empty());
                }
            }
        },
    }
}

/// The pattern as globbed.
pub fn resolve_pattern(config_dir: &str, pattern: &str) -> (r: String)
    ensures
        r@ == resolved_pattern(config_dir@, pattern@),
{
    if starts_with(pattern, "/") {
        to_owned_string(pattern)
    } else {
        join(config_dir, pattern)
    }
}

/// The matches of one pattern.
fn discover_pattern<'a>(
    pattern: &str,
    globbed: &'a Result<Vec<Result<EntryInfo, String>>, String>,
    config_dir: &str,
    strict: bool,
    set: &mut KeyedMap<&'a EntryInfo>,
    report: &mut ReportBuilder,
)
    requires
        old(report).wf(),
        keys_sorted(old(set)@),
        set_wf(old(set)@),
        listing_wf(listing_view(*globbed)),
    ensures
        final(report).wf(),
        keys_sorted(final(set)@),
        set_wf(final(set)@),
        final(set)@ == pattern_out(old(set)@, pattern@, listing_view(*globbed), config_dir@, strict).0,
        final(report).items() == old(report).items() + pattern_out(old(set)@, pattern@, listing_view(*globbed), config_dir@, strict).1,
{
    let ghost r0 = report.items();
    let ghost s0 = set@;
    let resolved = resolve_pattern(config_dir, pattern);
    match globbed {
        Err(m) => {
            report.push(Severity::Error, to_owned_string(resolved.as_str()), to_owned_string("$"), "template-glob", to_owned_string(m.as_str()));
            report.warn_or_error(strict, resolved, to_owned_string("$"), "missing-template", to_owned_string("no templates matched glob"));
            proof {
                assert(report.items() =~= r0 + seq![
                    (Severity::Error, resolved_pattern(config_dir@, pattern@), "$"@, "template-glob"@, m@),
                    no_match_finding(resolved_pattern(config_dir@, pattern@), strict),
                ]);
            }
        },
        Ok(es) => {
            let ghost ev = entry_list_view(es@);
            let mut matched = false;
            let mut i: usize = 0;
            proof {
                assert(r0 + Seq::<FindingView>::empty() =~= r0);
            }
            while i < es.len()
                invariant
                    i <= es@.len(),
                    ev == entry_list_view(es@),
                    resolved@ == resolved_pattern(config_dir@, pattern@),
                    report.wf(),
                    keys_sorted(set@),
                    set_wf(set@),
                    entry_list_wf(ev),
                    matched == exists|j: int| 0 <= j < i && #[trigger] ev[j] is Ok,
                    set@ == glob_upto(s0, ev, i as nat, resolved@, config_dir@, strict).0,
                    report.items() == r0 + glob_upto(s0, ev, i as nat, resolved@, config_dir@, strict).1,
                decreases es.len() - i,
            {
                assert(ev[i as int] == match es@[i as int] {
                    Ok(e) => Ok::<EntryView, Seq<char>>(e@),
                    Err(m) => Err(m@),
                });
                if es[i].is_ok() {
                    matched = true;
                }
                discover_glob_entry(&es[i], resolved.as_str(), config_dir, strict, set, report);
                proof {
                    assert(report.items() =~= r0 + glob_upto(s0, ev, (i + 1) as nat, resolved@, config_dir@, strict).1);
                }
                i = i + 1;
            }
            if !matched {
                let ghost before = report.items();
                report.warn_or_error(strict, resolved, to_owned_string("$"), "missing-template", to_owned_string("no templates matched glob"));
                proof {
                    assert(!any_ok(ev));
                    assert(report.items() =~= r0 + glob_upto(s0, ev, ev.len(), resolved_pattern(config_dir@, pattern@), config_dir@, strict).1.push(no_match_finding(resolved_pattern(config_dir@, pattern@), strict)));
                }
            } else {
                proof {
                    let j = choose|j: int| 0 <= j < es@.len() && #[trigger] ev[j] is Ok;
                    assert(any_ok(ev));
                }
            }
        },
    }
}

/// Lists the templates to validate, reporting discovery findings.
fn discover_templates<'a>(
    config_dir: &str,
    patterns: &Vec<String>,
    listing: &'a Result<Vec<Result<EntryInfo, String>>, String>,
    globs: &'a Vec<Result<Vec<Result<EntryInfo, String>>, String>>,
    strict: bool,
    report: &mut ReportBuilder,
) -> (set: KeyedMap<&'a EntryInfo>)
    requires
        old(report).wf(),
        patterns@.len() > 0 ==> globs@.len() == patterns@.len(),
        listing_wf(listing_view(*listing)),
        forall|i: int| 0 <= i < globs@.len() ==> listing_wf(#[trigger] listing_view(globs@[i])),
    ensures
        final(report).wf(),
        keys_sorted(set@),
        set_wf(set@),
        set@ == discovery(
            config_dir@,
            Seq::new(patterns@.len(), |i: int| patterns@[i]@),
            listing_view(*listing),
            Seq::new(globs@.len(), |i: int| listing_view(globs@[i])),
            strict,
        ).0,
        final(report).items() == old(report).items() + discovery(
            config_dir@,
            Seq::new(patterns@.len(), |i: int| patterns@[i]@),
            listing_view(*listing),
            Seq::new(globs@.len(), |i: int| listing_view(globs@[i])),
            strict,
        ).1,
{
    let ghost ps = Seq::new(patterns@.len(), |i: int| patterns@[i]@);
    let ghost gs = Seq::new(globs@.len(), |i: int| listing_view(globs@[i]));
    let mut set: KeyedMap<&'a EntryInfo> = KeyedMap::new();
    if patterns.len() == 0 {
        discover_listing(listing, config_dir, strict, &mut set, report);
        return set;
    }
    let ghost r0 = report.items();
    let mut k: usize = 0;
    proof {
        assert(r0 + Seq::<FindingView>::empty() =~= r0);
    }
    while k < patterns.len()
        invariant
            k <= patterns@.len(),
            globs@.len() == patterns@.len(),
            ps == Seq::new(patterns@.len(), |i: int| patterns@[i]@),
            gs == Seq::new(globs@.len(), |i: int| listing_view(globs@[i])),
            report.wf(),
            keys_sorted(set@),
            set_wf(set@),
            forall|i: int| 0 <= i < globs@.len() ==> listing_wf(#[trigger] listing_view(globs@[i])),
            set@ == patterns_upto(ps, gs, k as nat, config_dir@, strict).0,
            report.items() == r0 + patterns_upto(ps, gs, k as nat, config_dir@, strict).1,
        decreases patterns.len() - k,
    {
        proof {
            assert(listing_wf(listing_view(globs@[k as int])));
        }
        discover_pattern(patterns[k].as_str(), &globs[k], config_dir, strict, &mut set, report);
        proof {
            assert(report.items() =~= r0 + patterns_upto(ps, gs, (k + 1) as nat, config_dir@, strict).1);
        }
        k = k + 1;
    }
    set
}


// ---------------------------------------------------------------------------
// Scanning the discovered templates
// ---------------------------------------------------------------------------

/// A scanned template: how its file is shown, and its placeholder uses.
pub type TemplateScanView = (Seq<char>, Seq<UseView>);

/// A template's scan: overwriting fragments (for a directory), then either
/// its placeholders or the error that stopped loading it.
pub open spec fn scan_template(e: EntryView, config_dir: Seq<char>, strict: bool) -> (Option<TemplateScanView>, Seq<FindingView>) {
    let file = shown_path(e.path, config_dir);
    let merges = if e.kind == EntryKind::Dir {
        match e.fragments {
            Ok(fs) => merge_conflict_findings(fs, file, strict),
            Err(_) => Seq::empty(),
        }
    } else {
        Seq::empty()
    };
    match entry_load(e) {
        Ok(v) => {
            let out = scan_value(v, "$"@, None, file);
            (Some((file, out.0)), merges + out.1)
        },
        Err(m) => (None, merges + seq![(Severity::Error, file, "$"@, "invalid-template"@, m)]),
    }
}

/// The scans of the first `n` templates, in path order.
pub open spec fn scans_upto(set: TemplateSet, n: nat, config_dir: Seq<char>, strict: bool) -> (Seq<TemplateScanView>, Seq<FindingView>)
    decreases n,
{
    if n == 0 {
        (Seq::empty(), Seq::empty())
    } else {
        let (s, f) = scans_upto(set, (n - 1) as nat, config_dir, strict);
        let (t, g) = scan_template(set[n - 1].1, config_dir, strict);
        (
            match t {
                Some(x) => s.push(x),
                None => s,
            },
            f + g,
        )
    }
}

/// A scanned template.
pub struct TemplateScan {
    pub file_display: String,
    pub uses: Vec<PlaceholderUse>,
}

/// The model of scanned templates.
pub open spec fn scans_model(v: Seq<TemplateScan>) -> Seq<TemplateScanView> {
    Seq::new(v.len(), |i: int| (v[i].file_display@, uses_model(v[i].uses@)))
}

/// The fragments of a well-formed entry are well formed.
proof fn lemma_fragments_wf(e: &EntryInfo)
    requires
        entry_wf(e@),
    ensures
        e.fragments matches Ok(v) ==> forall|i: int| 0 <= i < v@.len() ==> load_wf(#[trigger] v@[i]@.1),
{
    if let Ok(v) = e.fragments {
        let fs = frags_view(v@);
        assert(e@.fragments == Ok::<Seq<FragView>, Seq<char>>(fs));
        assert forall|i: int| 0 <= i < v@.len() implies load_wf(#[trigger] v@[i]@.1) by {
            assert(fs[i] == v@[i]@);
            let ev = e@;
            assert(entry_wf(ev));
            assert(ev.fragments->Ok_0 == fs);
            assert(load_wf(ev.fragments->Ok_0[i].1));
        }
    }
}

/// Loads a discovered template: a directory from its fragments, a file as
/// read.
fn load_entry(e: &EntryInfo) -> (r: Result<JsonValue, String>)
    requires
        entry_wf(e@),
    ensures
        load_view(r) == entry_load(e@),
        load_wf(load_view(r)),
{
    proof {
        lemma_fragments_wf(e);
    }
    if e.kind == EntryKind::Dir {
        load_dir(e.path.as_str(), &e.fragments)
    } else {
        match &e.loaded {
            Ok(v) => Ok(copy_value(v)),
            Err(m) => Err(to_owned_string(m.as_str())),
        }
    }
}

fn scan_one(e: &EntryInfo, config_dir: &str, strict: bool, scans: &mut Vec<TemplateScan>, report: &mut ReportBuilder)
    requires
        old(report).wf(),
        entry_wf(e@),
        pattern_compiles(PLACEHOLDER_PATTERN@),
    ensures
        final(report).wf(),
        scans_model(final(scans)@) == match scan_template(e@, config_dir@, strict).0 {
            Some(x) => scans_model(old(scans)@).push(x),
            None => scans_model(old(scans)@),
        },
        final(report).items() == old(report).items() + scan_template(e@, config_dir@, strict).1,
{
    let ghost r0 = report.items();
    let ghost s0 = scans_model(scans@);
    let file_display = display_path(e.path.as_str(), config_dir);
    proof {
        lemma_fragments_wf(e);
    }
    if e.kind == EntryKind::Dir {
        match &e.fragments {
            Ok(v) => {
                detect_fragment_merge_conflicts(v, file_display.as_str(), strict, report);
            },
            Err(_) => {
                proof {
                    assert(report.items() =~= r0 + Seq::<FindingView>::empty());
                }
            },
        }
    } else {
        proof {
            assert(report.items() =~= r0 + Seq::<FindingView>::empty());
        }
    }
    let ghost r1 = report.items();
    match load_entry(e) {
        Ok(value) => {
            let mut uses: Vec<PlaceholderUse> = Vec::new();
            proof {
                assert(uses_model(uses@) =~= Seq::<UseView>::empty());
            }
            scan_placeholders(&value, to_owned_string("$"), None, file_display.as_str(), &mut uses, report);
            proof {
                assert(uses_model(uses@) =~= scan_value(value@, "$"@, None, file_display@).0);
            }
            scans.push(TemplateScan { file_display, uses });
            proof {
                assert(scans_model(scans@) =~= s0.push(scan_template(e@, config_dir@, strict).0->Some_0));
                assert(report.items() =~= r0 + scan_template(e@, config_dir@, strict).1);
            }
        },
        Err(m) => {
            report.push(Severity::Error, file_display, to_owned_string("$"), "invalid-template", m);
            proof {
                assert(scans_model(scans@) =~= s0);
                assert(report.items() =~= r0 + scan_template(e@, config_dir@, strict).1);
            }
        },
    }
}

/// Scans every discovered template, in path order.
fn scan_templates(set: &KeyedMap<&EntryInfo>, config_dir: &str, strict: bool, report: &mut ReportBuilder) -> (scans: Vec<TemplateScan>)
    requires
        old(report).wf(),
        set_wf(set@),
        pattern_compiles(PLACEHOLDER_PATTERN@),
    ensures
        final(report).wf(),
        scans_model(scans@) == scans_upto(set@, set@.len(), config_dir@, strict).0,
        final(report).items() == old(report).items() + scans_upto(set@, set@.len(), config_dir@, strict).1,
{
    let ghost r0 = report.items();
    let mut scans: Vec<TemplateScan> = Vec::new();
    let mut i: usize = 0;
    proof {
        assert(scans_model(scans@) =~= Seq::<TemplateScanView>::empty());
        assert(r0 + Seq::<FindingView>::empty() =~= r0);
    }
    while i < set.entries.len()
        invariant
            i <= set@.len(),
            set_wf(set@),
            pattern_compiles(PLACEHOLDER_PATTERN@),
            report.wf(),
            scans_model(scans@) == scans_upto(set@, i as nat, config_dir@, strict).0,
            report.items() == r0 + scans_upto(set@, i as nat, config_dir@, strict).1,
        decreases set.entries.len() - i,
    {
        let e: &EntryInfo = set.entries[i].1;
        proof {
            assert(set@[i as int].1 == e@);
            assert(entry_wf(set@[i as int].1));
        }
        scan_one(e, config_dir, strict, &mut scans, report);
        proof {
            assert(report.items() =~= r0 + scans_upto(set@, (i + 1) as nat, config_dir@, strict).1);
        }
        i = i + 1;
    }
    scans
}

// ---------------------------------------------------------------------------
// Placeholder checks of the scanned templates
// ---------------------------------------------------------------------------

/// The placeholder findings of the scanned templates, in order: the `env:`
/// checks, then (when the palettes loaded) the checks of the other uses
/// against them.
pub open spec fn placeholder_phase(
    scans: Seq<TemplateScanView>,
    palettes: Option<Seq<(Seq<char>, PaletteModel)>>,
    strict: bool,
    env_allow: Option<bool>,
    env: Seq<(Seq<char>, Seq<char>)>,
) -> Seq<FindingView>
    decreases scans.len(),
{
    if scans.len() == 0 {
        Seq::empty()
    } else {
        let t = scans.last();
        placeholder_phase(scans.drop_last(), palettes, strict, env_allow, env) + env_findings(t.1, t.0, strict, env_allow, env)
            + match palettes {
            Some(c) => placeholder_findings(palette_uses_spec(t.1), c, t.0, strict),
            None => Seq::empty(),
        }
    }
}

fn check_placeholders(
    scans: &Vec<TemplateScan>,
    configs: Option<&ModelConfigs>,
    strict: bool,
    env_allow: Option<bool>,
    env: &Vec<(String, String)>,
    report: &mut ReportBuilder,
)
    requires
        old(report).wf(),
        configs matches Some(c) ==> configs_wf(c@),
    ensures
        final(report).wf(),
        final(report).items() == old(report).items() + placeholder_phase(
            scans_model(scans@),
            match configs {
                Some(c) => Some(c@),
                None => None,
            },
            strict,
            env_allow,
            string_pairs(env@),
        ),
{
    let ghost sm = scans_model(scans@);
    let ghost pal = match configs {
        Some(c) => Some(c@),
        None => None::<Seq<(Seq<char>, PaletteModel)>>,
    };
    let ghost r0 = report.items();
    let mut i: usize = 0;
    proof {
        assert(sm.subrange(0, 0) =~= Seq::<TemplateScanView>::empty());
        assert(r0 + Seq::<FindingView>::empty() =~= r0);
    }
    while i < scans.len()
        invariant
            i <= scans@.len(),
            sm == scans_model(scans@),
            pal == match configs {
                Some(c) => Some(c@),
                None => None,
            },
            configs matches Some(c) ==> configs_wf(c@),
            report.wf(),
            report.items() == r0 + placeholder_phase(sm.subrange(0, i as int), pal, strict, env_allow, string_pairs(env@)),
        decreases scans.len() - i,
    {
        let scan = &scans[i];
        let ghost before = report.items();
        validate_env_placeholders(&scan.uses, scan.file_display.as_str(), strict, env_allow, env, report);
        let ghost mid = report.items();
        match configs {
            Some(c) => {
                let checked = palette_uses(&scan.uses);
                validate_placeholders(&checked, c, scan.file_display.as_str(), strict, report);
            },
            None => {
                proof {
                    assert(report.items() =~= mid + Seq::<FindingView>::empty());
                }
            },
        }
        proof {
            let next = sm.subrange(0, i + 1);
            assert(next.drop_last() =~= sm.subrange(0, i as int));
            assert(next.last() == (scan.file_display@, uses_model(scan.uses@)));
            assert(report.items() =~= r0 + placeholder_phase(next, pal, strict, env_allow, string_pairs(env@)));
        }
        i = i + 1;
    }
    proof {
        assert(sm.subrange(0, sm.len() as int) =~= sm);
    }
}

// ---------------------------------------------------------------------------
// Schema validation of rendered templates
// ---------------------------------------------------------------------------

/// The path of a schema violation: `$` followed by the instance pointer.
pub open spec fn violation_path(pointer: Seq<char>) -> Seq<char> {
    if pointer.len() == 0 {
        "$"@
    } else {
        "$"@ + pointer
    }
}

/// The findings for schema violations.
pub open spec fn violation_findings(
    fs: Seq<(Seq<char>, Seq<char>, Seq<char>)>,
    name: Seq<char>,
    file: Seq<char>,
    strict: bool,
) -> Seq<FindingView>
    decreases fs.len(),
{
    if fs.len() == 0 {
        Seq::empty()
    } else {
        violation_findings(fs.drop_last(), name, file, strict).push(
            (
                strict_severity(strict),
                file,
                violation_path(fs.last().0),
                "schema-violation"@,
                "[palette: "@ + name + "] "@ + fs.last().2,
            ),
        )
    }
}

/// A template rendered with a palette (placeholders substituted, leniently)
/// and checked against the palette's schema; templates that fail to load or
/// render are skipped.
pub open spec fn schema_template(name: Seq<char>, p: PaletteModel, e: EntryView, config_dir: Seq<char>, strict: bool) -> Seq<FindingView> {
    let file = shown_path(e.path, config_dir);
    match entry_load(e) {
        Err(_) => Seq::empty(),
        Ok(v) => match subst_value_spec(mapping_of(p), false, v) {
            Err(_) => Seq::empty(),
            Ok(rendered) => match schema_check(json_text(schema_spec(p)), json_text(rendered)) {
                Ok(fs) => violation_findings(fs, name, file, strict),
                Err(m) => seq![
                    (
                        Severity::Error,
                        file,
                        "$.schema"@,
                        "schema-error"@,
                        "[palette: "@ + name + "] "@ + "invalid schema: "@ + m,
                    ),
                ],
            },
        },
    }
}

/// The schema findings of the first `n` templates for one palette.
pub open spec fn schema_templates(name: Seq<char>, p: PaletteModel, set: TemplateSet, n: nat, config_dir: Seq<char>, strict: bool) -> Seq<FindingView>
    decreases n,
{
    if n == 0 {
        Seq::empty()
    } else {
        schema_templates(name, p, set, (n - 1) as nat, config_dir, strict) + schema_template(name, p, set[n - 1].1, config_dir, strict)
    }
}

/// The schema findings, palette by palette and template by template.
pub open spec fn schema_phase(c: Seq<(Seq<char>, PaletteModel)>, set: TemplateSet, config_dir: Seq<char>, strict: bool) -> Seq<FindingView>
    decreases c.len(),
{
    if c.len() == 0 {
        Seq::empty()
    } else {
        schema_phase(c.drop_last(), set, config_dir, strict) + schema_templates(
            c.last().0,
            c.last().1,
            set,
            set.len(),
            config_dir,
            strict,
        )
    }
}

fn report_schema_result(
    checked: Result<Vec<crate::schema::SchemaFinding>, SchemaError>,
    name: &str,
    file: &str,
    strict: bool,
    report: &mut ReportBuilder,
)
    requires
        old(report).wf(),
    ensures
        final(report).wf(),
        checked matches Ok(v) ==> final(report).items() == old(report).items() + violation_findings(
            crate::schema::findings_view(v@),
            name@,
            file@,
            strict,
        ),
        checked matches Err(SchemaError::InvalidSchema { message }) ==> final(report).items() == old(report).items() + seq![
            (
                Severity::Error,
                file@,
                "$.schema"@,
                "schema-error"@,
                "[palette: "@ + name@ + "] "@ + "invalid schema: "@ + message@,
            ),
        ],
{
    let ghost r0 = report.items();
    match checked {
        Ok(found) => {
            let ghost fv = crate::schema::findings_view(found@);
            let mut i: usize = 0;
            proof {
                assert(fv.subrange(0, 0) =~= Seq::<(Seq<char>, Seq<char>, Seq<char>)>::empty());
                assert(r0 + Seq::<FindingView>::empty() =~= r0);
            }
            while i < found.len()
                invariant
                    i <= found@.len(),
                    fv == crate::schema::findings_view(found@),
                    report.wf(),
                    report.items() == r0 + violation_findings(fv.subrange(0, i as int), name@, file@, strict),
                decreases found.len() - i,
            {
                let f = &found[i];
                let path = if crate::strings::chars_of(f.instance_path.as_str()).len() == 0 {
                    to_owned_string("$")
                } else {
                    crate::strings::concat("$", f.instance_path.as_str())
                };
                let mut message = concat3("[palette: ", name, "] ");
                message.append(f.message.as_str());
                report.warn_or_error(strict, to_owned_string(file), path, "schema-violation", message);
                proof {
                    let next = fv.subrange(0, i + 1);
                    assert(next.drop_last() =~= fv.subrange(0, i as int));
                    assert(next.last() == (f.instance_path@, f.schema_path@, f.message@));
                    assert(report.items() =~= r0 + violation_findings(next, name@, file@, strict));
                }
                i = i + 1;
            }
            proof {
                assert(fv.subrange(0, fv.len() as int) =~= fv);
            }
        },
        Err(e) => {
            match e {
                SchemaError::InvalidSchema { message } => {
                    let mut text = concat3("[palette: ", name, "] ");
                    text.append("invalid schema: ");
                    text.append(message.as_str());
                    report.push(Severity::Error, to_owned_string(file), to_owned_string("$.schema"), "schema-error", text);
                },
                _ => {},
            }
        },
    }
}

fn schema_check_template(
    name: &str,
    palette: &Palette,
    schema: &JsonValue,
    mapping: &crate::json::JsonMap,
    e: &EntryInfo,
    config_dir: &str,
    strict: bool,
    report: &mut ReportBuilder,
)
    requires
        old(report).wf(),
        entry_wf(e@),
        schema@ == schema_spec(palette@),
        mapping@ == mapping_of(palette@),
        keys_sorted(mapping@),
        pattern_compiles(PLACEHOLDER_PATTERN@),
    ensures
        final(report).wf(),
        final(report).items() == old(report).items() + schema_template(name@, palette@, e@, config_dir@, strict),
{
    let ghost r0 = report.items();
    let file_display = display_path(e.path.as_str(), config_dir);
    let mut value = match load_entry(e) {
        Ok(v) => v,
        Err(_) => {
            proof {
                assert(report.items() =~= r0 + Seq::<FindingView>::empty());
            }
            return;
        },
    };
    let ghost loaded = value@;
    match substitute(&mut value, mapping, false) {
        Err(_) => {
            proof {
                assert(report.items() =~= r0 + Seq::<FindingView>::empty());
            }
            return;
        },
        Ok(()) => {},
    }
    let checked = validate_against_schema(schema, &value);
    report_schema_result(checked, name, file_display.as_str(), strict, report);
}

fn check_schemas(configs: &ModelConfigs, set: &KeyedMap<&EntryInfo>, config_dir: &str, strict: bool, report: &mut ReportBuilder)
    requires
        old(report).wf(),
        set_wf(set@),
        pattern_compiles(PLACEHOLDER_PATTERN@),
    ensures
        final(report).wf(),
        final(report).items() == old(report).items() + schema_phase(configs@, set@, config_dir@, strict),
{
    let ghost c = configs@;
    let ghost r0 = report.items();
    let mut k: usize = 0;
    proof {
        assert(c.subrange(0, 0) =~= Seq::<(Seq<char>, PaletteModel)>::empty());
        assert(r0 + Seq::<FindingView>::empty() =~= r0);
    }
    while k < configs.palettes.entries.len()
        invariant
            k <= c.len(),
            c == configs@,
            set_wf(set@),
            pattern_compiles(PLACEHOLDER_PATTERN@),
            report.wf(),
            report.items() == r0 + schema_phase(c.subrange(0, k as int), set@, config_dir@, strict),
        decreases configs.palettes.entries.len() - k,
    {
        let name = &configs.palettes.entries[k].0;
        let palette = &configs.palettes.entries[k].1;
        let schema = build_schema(palette);
        let mapping = build_mapping(palette);
        let ghost before = report.items();
        let mut i: usize = 0;
        proof {
            assert(before + Seq::<FindingView>::empty() =~= before);
        }
        while i < set.entries.len()
            invariant
                i <= set@.len(),
                set_wf(set@),
                pattern_compiles(PLACEHOLDER_PATTERN@),
                schema@ == schema_spec(palette@),
                mapping@ == mapping_of(palette@),
                keys_sorted(mapping@),
                report.wf(),
                report.items() == before + schema_templates(name@, palette@, set@, i as nat, config_dir@, strict),
            decreases set.entries.len() - i,
        {
            let e: &EntryInfo = set.entries[i].1;
            proof {
                assert(set@[i as int].1 == e@);
                assert(entry_wf(set@[i as int].1));
            }
            schema_check_template(name.as_str(), palette, &schema, &mapping, e, config_dir, strict, report);
            proof {
                assert(report.items() =~= before + schema_templates(name@, palette@, set@, (i + 1) as nat, config_dir@, strict));
            }
            i = i + 1;
        }
        proof {
            let next = c.subrange(0, k + 1);
            assert(next.drop_last() =~= c.subrange(0, k as int));
            assert(next.last() == (name@, palette@));
            assert(report.items() =~= r0 + schema_phase(next, set@, config_dir@, strict));
        }
        k = k + 1;
    }
    proof {
        assert(c.subrange(0, c.len() as int) =~= c);
    }
}


// ---------------------------------------------------------------------------
// The whole validation
// ---------------------------------------------------------------------------

/// Why a validation could not run.
#[derive(Debug)]
pub enum ValidateError {
    /// The placeholder pattern did not compile.
    Regex(regex::Error),
}

/// What the caller read for a validation run.
pub struct ValidateInput {
    /// The palettes, or the text of the error that stopped loading them.
    pub palettes: Result<ModelConfigs, String>,
    /// The entries of `template.d`, each read or the text of its error, or
    /// the error that stopped listing it; used when no pattern is given.
    pub listing: Result<Vec<Result<EntryInfo, String>>, String>,
    /// For each pattern, in order (see `resolve_pattern`), its matches, each
    /// read or the text of its error, or the error of the pattern itself.
    pub globs: Vec<Result<Vec<Result<EntryInfo, String>>, String>>,
    /// The environment: name and value of each variable.
    pub env: Vec<(String, String)>,
}

/// The model of loaded palettes.
pub open spec fn palettes_view(r: Result<ModelConfigs, String>) -> Result<Seq<(Seq<char>, PaletteModel)>, Seq<char>> {
    match r {
        Ok(c) => Ok(c@),
        Err(m) => Err(m@),
    }
}

/// The model of the glob results.
pub open spec fn globs_view(v: Seq<Result<Vec<Result<EntryInfo, String>>, String>>) -> Seq<Result<EntryList, Seq<char>>> {
    Seq::new(v.len(), |i: int| listing_view(v[i]))
}

/// The palettes loaded are well formed and so are the templates read.
pub open spec fn input_wf(input: &ValidateInput) -> bool {
    &&& input.palettes matches Ok(c) ==> configs_wf(c@)
    &&& listing_wf(listing_view(input.listing))
    &&& forall|i: int| 0 <= i < input.globs@.len() ==> listing_wf(#[trigger] listing_view(input.globs@[i]))
}

/// The palettes file: as given, or `model-configs.yaml` in the config
/// directory.
pub open spec fn palettes_path_of(config_dir: Seq<char>, given: Option<Seq<char>>) -> Seq<char> {
    match given {
        Some(p) => p,
        None => join_path(config_dir, "model-configs.yaml"@),
    }
}

/// Findings about the palettes: the load error, or the shadowed mapping
/// keys.
pub open spec fn palette_phase(
    config_dir: Seq<char>,
    palettes_path: Seq<char>,
    palettes: Result<Seq<(Seq<char>, PaletteModel)>, Seq<char>>,
    strict: bool,
) -> Seq<FindingView> {
    let file = shown_path(palettes_path, config_dir);
    match palettes {
        Err(m) => seq![(Severity::Error, file, "$"@, "invalid-palettes"@, m)],
        Ok(c) => palettes_alias_findings(c, file, strict),
    }
}

/// The warning when there is no template to validate.
pub open spec fn no_templates_findings(set: TemplateSet, config_dir: Seq<char>, strict: bool) -> Seq<FindingView> {
    if set.len() == 0 {
        seq![
            (
                strict_severity(strict),
                shown_path(template_dir_of(config_dir), config_dir),
                "$"@,
                "missing-templates"@,
                "no templates found to validate"@,
            ),
        ]
    } else {
        Seq::empty()
    }
}

/// Every finding of a validation, in the order the checks run: palettes,
/// discovery, no templates, scanning, placeholders, schemas (on request,
/// and only when the palettes loaded).
pub open spec fn validation_findings(
    config_dir: Seq<char>,
    patterns: Seq<Seq<char>>,
    palettes_path: Seq<char>,
    palettes: Result<Seq<(Seq<char>, PaletteModel)>, Seq<char>>,
    listing: Result<EntryList, Seq<char>>,
    globs: Seq<Result<EntryList, Seq<char>>>,
    env: Seq<(Seq<char>, Seq<char>)>,
    strict: bool,
    env_allow: Option<bool>,
    schema: bool,
) -> Seq<FindingView> {
    let (set, found) = discovery(config_dir, patterns, listing, globs, strict);
    let (scans, scanned) = scans_upto(set, set.len(), config_dir, strict);
    let pal = match palettes {
        Ok(c) => Some(c),
        Err(_) => None,
    };
    palette_phase(config_dir, palettes_path, palettes, strict) + found + no_templates_findings(set, config_dir, strict)
        + scanned + placeholder_phase(scans, pal, strict, env_allow, env) + if schema && palettes is Ok {
        schema_phase(palettes->Ok_0, set, config_dir, strict)
    } else {
        Seq::empty()
    }
}

/// The findings `validate_dir` gives for `opts` and `input`.
pub open spec fn validate_spec(config_dir: Seq<char>, opts: &ValidateOpts, input: &ValidateInput) -> Seq<FindingView> {
    validation_findings(
        config_dir,
        Seq::new(opts.templates@.len(), |i: int| opts.templates@[i]@),
        palettes_path_of(config_dir, crate::config::opt_text(opts.palettes_path)),
        palettes_view(input.palettes),
        listing_view(input.listing),
        globs_view(input.globs@),
        string_pairs(input.env@),
        opts.strict,
        opts.env_allow,
        opts.schema,
    )
}

/// Validates the templates and palettes of a config directory, from what
/// the caller read of it. Fails only when the placeholder pattern does not
/// compile; otherwise the report lists every finding, in the order the
/// checks run, with the count of each severity.
pub fn validate_dir(config_dir: &str, opts: ValidateOpts, input: &ValidateInput) -> (r: Result<Report, ValidateError>)
    requires
        opts.templates@.len() > 0 ==> input.globs@.len() == opts.templates@.len(),
        input_wf(input),
    ensures
        !pattern_compiles(PLACEHOLDER_PATTERN@) ==> r is Err,
        pattern_compiles(PLACEHOLDER_PATTERN@) ==> (r matches Ok(rep) && {
            let fs = validate_spec(config_dir@, &opts, input);
            &&& findings_model(rep.findings@) == fs
            &&& rep.counts.errors == capped(count_of(fs, Severity::Error))
            &&& rep.counts.warnings == capped(count_of(fs, Severity::Warning))
        }),
{
    match regex_check(PLACEHOLDER_PATTERN) {
        Err(e) => {
            return Err(ValidateError::Regex(e));
        },
        Ok(()) => {},
    }
    let mut report = ReportBuilder::new();
    let palettes_path = match &opts.palettes_path {
        Some(p) => to_owned_string(p.as_str()),
        None => join(config_dir, "model-configs.yaml"),
    };
    let palettes_file = display_path(palettes_path.as_str(), config_dir);
    let configs: Option<&ModelConfigs> = match &input.palettes {
        Ok(c) => {
            check_palette_aliases(c, palettes_file.as_str(), opts.strict, &mut report);
            Some(c)
        },
        Err(m) => {
            report.push(Severity::Error, palettes_file, to_owned_string("$"), "invalid-palettes", to_owned_string(m.as_str()));
            proof {
                assert(report.items() =~= Seq::<FindingView>::empty() + report.items());
            }
            None
        },
    };
    proof {
        assert(report.items() =~= palette_phase(
            config_dir@,
            palettes_path_of(config_dir@, crate::config::opt_text(opts.palettes_path)),
            palettes_view(input.palettes),
            opts.strict,
        ));
    }
    let set = discover_templates(config_dir, &opts.templates, &input.listing, &input.globs, opts.strict, &mut report);
    if set.entries.len() == 0 {
        let td = join(config_dir, "template.d");
        report.warn_or_error(
            opts.strict,
            display_path(td.as_str(), config_dir),
            to_owned_string("$"),
            "missing-templates",
            to_owned_string("no templates found to validate"),
        );
    }
    let scans = scan_templates(&set, config_dir, opts.strict, &mut report);
    check_placeholders(&scans, configs, opts.strict, opts.env_allow, &input.env, &mut report);
    if opts.schema {
        match configs {
            Some(c) => {
                check_schemas(c, &set, config_dir, opts.strict, &mut report);
            },
            None => {},
        }
    }
    let ghost fs = validate_spec(config_dir@, &opts, input);
    proof {
        assert(report.items() =~= fs);
    }
    Ok(report.build())
}

} // verus!
