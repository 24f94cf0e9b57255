//! Strict mode and validation findings: every finding the validation can
//! report is an error or a warning that strict mode makes an error, so a
//! strict validation reports no warning.

use vstd::prelude::*;
use crate::config::{AgentModel, PaletteModel};
use crate::json::{Json, Entries};
use crate::pattern::Hit;
use crate::validate::{
    FindingView, Severity, UseView, EntryList, EntryView, TemplateSet, TemplateScanView, FragView,
    ValidateOpts, ValidateInput, EntryKind, alias_findings, palettes_alias_findings, hit_out, hits_out,
    text_out, scan_value, scan_members, scan_elements, env_use_findings, env_findings, palettes_finding,
    use_findings, placeholder_findings, placeholder_phase, palette_uses_spec, stems_findings, overwrite_findings,
    fragment_fold, merge_conflict_findings, listing_entry, listing_upto, listing_phase, glob_entry,
    glob_upto, pattern_out, patterns_upto, discovery, scan_template, scans_upto, violation_findings,
    schema_template, schema_templates, schema_phase, palette_phase, no_templates_findings,
    validate_spec, count_of,
};

verus! {

/// Every finding is an error.
pub open spec fn all_errors(fs: Seq<FindingView>) -> bool {
    forall|i: int| 0 <= i < fs.len() ==> (#[trigger] fs[i]).0 == Severity::Error
}

proof fn lemma_concat(a: Seq<FindingView>, b: Seq<FindingView>)
    requires
        all_errors(a),
        all_errors(b),
    ensures
        all_errors(a + b),
{
    assert forall|i: int| 0 <= i < (a + b).len() implies (#[trigger] (a + b)[i]).0 == Severity::Error by {
        if i < a.len() {
            assert((a + b)[i] == a[i]);
        } else {
            assert((a + b)[i] == b[i - a.len()]);
        }
    }
}

proof fn lemma_push(a: Seq<FindingView>, x: FindingView)
    requires
        all_errors(a),
        x.0 == Severity::Error,
    ensures
        all_errors(a.push(x)),
{
    assert forall|i: int| 0 <= i < a.push(x).len() implies (#[trigger] a.push(x)[i]).0 == Severity::Error by {
        if i < a.len() {
            assert(a.push(x)[i] == a[i]);
        }
    }
}

proof fn lemma_one(x: FindingView)
    requires
        x.0 == Severity::Error,
    ensures
        all_errors(seq![x]),
{
    lemma_push(Seq::empty(), x);
    assert(seq![x] =~= Seq::<FindingView>::empty().push(x));
}

// ---------------------------------------------------------------------------
// Palettes
// ---------------------------------------------------------------------------

proof fn lemma_alias_findings(name: Seq<char>, keys: Entries, agents: Seq<(Seq<char>, AgentModel)>, file: Seq<char>)
    ensures
        all_errors(alias_findings(name, keys, agents, file, true)),
    decreases keys.len(),
{
    if keys.len() > 0 {
        lemma_alias_findings(name, keys.drop_last(), agents, file);
        let prev = alias_findings(name, keys.drop_last(), agents, file, true);
        match crate::validate::alias_owner(agents, keys.last().0) {
            Some(a) => {
                lemma_one(crate::validate::alias_finding(name, keys.last().0, a, file, true));
                lemma_concat(prev, seq![crate::validate::alias_finding(name, keys.last().0, a, file, true)]);
            },
            None => {
                lemma_concat(prev, Seq::empty());
            },
        }
    }
}

proof fn lemma_palettes_alias_findings(c: Seq<(Seq<char>, PaletteModel)>, file: Seq<char>)
    ensures
        all_errors(palettes_alias_findings(c, file, true)),
    decreases c.len(),
{
    if c.len() > 0 {
        lemma_palettes_alias_findings(c.drop_last(), file);
        lemma_alias_findings(c.last().0, c.last().1.mapping, c.last().1.agents, file);
        lemma_concat(
            palettes_alias_findings(c.drop_last(), file, true),
            alias_findings(c.last().0, c.last().1.mapping, c.last().1.agents, file, true),
        );
    }
}

// ---------------------------------------------------------------------------
// Scanning
// ---------------------------------------------------------------------------

proof fn lemma_hits_out(hits: Seq<Hit>, text: Seq<char>, path: Seq<char>, jkey: Option<Seq<char>>, file: Seq<char>)
    ensures
        all_errors(hits_out(hits, text, path, jkey, file).1),
    decreases hits.len(),
{
    if hits.len() > 0 {
        lemma_hits_out(hits.drop_last(), text, path, jkey, file);
        let h = hit_out(hits.last(), text, path, jkey, file);
        if crate::substitute::hit_key(hits.last()).len() == 0 {
            lemma_one(h.1[0]);
            assert(h.1 =~= seq![h.1[0]]);
        }
        lemma_concat(hits_out(hits.drop_last(), text, path, jkey, file).1, h.1);
    }
}

proof fn lemma_text_out(text: Seq<char>, path: Seq<char>, jkey: Option<Seq<char>>, file: Seq<char>)
    ensures
        all_errors(text_out(text, path, jkey, file).1),
{
    let hits = crate::substitute::scan_of(text).1;
    lemma_hits_out(hits, text, path, jkey, file);
    let t = text_out(text, path, jkey, file).1;
    if t.len() > 0 && t != hits_out(hits, text, path, jkey, file).1 {
        lemma_one(t[0]);
        assert(t =~= seq![t[0]]);
    }
}

proof fn lemma_scan_value(v: Json, path: Seq<char>, jkey: Option<Seq<char>>, file: Seq<char>)
    ensures
        all_errors(scan_value(v, path, jkey, file).1),
    decreases v, 1int,
{
    match v {
        Json::Object(e) => lemma_scan_members(e, crate::validate::trim_dots(path), file),
        Json::Array(a) => lemma_scan_elements(a, crate::validate::trim_dots(path), file),
        Json::Str(t) => lemma_text_out(t, path, jkey, file),
        _ => {},
    }
}

proof fn lemma_scan_members(e: Entries, base: Seq<char>, file: Seq<char>)
    ensures
        all_errors(scan_members(e, base, file).1),
    decreases e, 0int,
{
    if e.len() > 0 {
        assert(decreases_to!(e => e[e.len() - 1]));
        lemma_scan_members(e.drop_last(), base, file);
        lemma_scan_value(e.last().1, crate::validate::member_path(base, e.last().0), Some(e.last().0), file);
        lemma_concat(
            scan_members(e.drop_last(), base, file).1,
            scan_value(e.last().1, crate::validate::member_path(base, e.last().0), Some(e.last().0), file).1,
        );
    }
}

proof fn lemma_scan_elements(a: Seq<Json>, base: Seq<char>, file: Seq<char>)
    ensures
        all_errors(scan_elements(a, base, file).1),
    decreases a, 0int,
{
    if a.len() > 0 {
        assert(decreases_to!(a => a[a.len() - 1]));
        lemma_scan_elements(a.drop_last(), base, file);
        let p = crate::validate::element_path(base, (a.len() - 1) as nat);
        lemma_scan_value(a.last(), p, None, file);
        lemma_concat(scan_elements(a.drop_last(), base, file).1, scan_value(a.last(), p, None, file).1);
    }
}

// ---------------------------------------------------------------------------
// Placeholders
// ---------------------------------------------------------------------------

proof fn lemma_env_findings(
    uses: Seq<UseView>,
    file: Seq<char>,
    env_allow: Option<bool>,
    env: Seq<(Seq<char>, Seq<char>)>,
)
    ensures
        all_errors(env_findings(uses, file, true, env_allow, env)),
    decreases uses.len(),
{
    if uses.len() > 0 {
        lemma_env_findings(uses.drop_last(), file, env_allow, env);
        let f = env_use_findings(uses.last(), file, true, env_allow, env);
        if f.len() > 0 {
            lemma_one(f[0]);
            assert(f =~= seq![f[0]]);
        }
        lemma_concat(env_findings(uses.drop_last(), file, true, env_allow, env), f);
    }
}

proof fn lemma_palettes_finding(
    names: Seq<Seq<char>>,
    file: Seq<char>,
    path: Seq<char>,
    kind: Seq<char>,
    prefix: Seq<char>,
)
    ensures
        all_errors(palettes_finding(names, true, file, path, kind, prefix)),
{
    let f = palettes_finding(names, true, file, path, kind, prefix);
    if f.len() > 0 {
        lemma_one(f[0]);
        assert(f =~= seq![f[0]]);
    }
}

proof fn lemma_use_findings(u: UseView, palettes: Seq<(Seq<char>, PaletteModel)>, file: Seq<char>)
    ensures
        all_errors(use_findings(u, palettes, file, true)),
{
    let k = u.0;
    let f = use_findings(u, palettes, file, true);
    if crate::strings::seq_starts_with(k, "env:"@) {
    } else if !crate::validate::found_any(palettes, k) {
        lemma_one(f[0]);
        assert(f =~= seq![f[0]]);
    } else {
        let n1 = crate::validate::names_with(palettes, k, crate::validate::Availability::Missing);
        let n2 = crate::validate::names_with(palettes, k, crate::validate::Availability::MissingVariant);
        let n3 = crate::validate::names_with(palettes, k, crate::validate::Availability::MissingReasoning);
        let n4 = crate::validate::names_with(palettes, k, crate::validate::Availability::MissingReasoningDetail);
        let kind2 = if crate::validate::optional_variant(u) {
            "missing-variant"@
        } else {
            "palette-mismatch"@
        };
        let f1 = palettes_finding(n1, true, file, u.1, "palette-mismatch"@, "placeholder '"@ + k + "' missing from palettes: "@);
        let f2 = palettes_finding(n2, true, file, u.1, kind2, "variant placeholder '"@ + k + "' missing from palettes: "@);
        let f3 = palettes_finding(n3, true, file, u.1, "missing-reasoning"@, "reasoning placeholder '"@ + k + "' missing from palettes: "@);
        let f4 = palettes_finding(n4, true, file, u.1, "missing-reasoning"@, "reasoning placeholder '"@ + k + "' missing from palettes: "@);
        lemma_palettes_finding(n1, file, u.1, "palette-mismatch"@, "placeholder '"@ + k + "' missing from palettes: "@);
        lemma_palettes_finding(n2, file, u.1, kind2, "variant placeholder '"@ + k + "' missing from palettes: "@);
        lemma_palettes_finding(n3, file, u.1, "missing-reasoning"@, "reasoning placeholder '"@ + k + "' missing from palettes: "@);
        lemma_palettes_finding(n4, file, u.1, "missing-reasoning"@, "reasoning placeholder '"@ + k + "' missing from palettes: "@);
        lemma_concat(f1, f2);
        lemma_concat(f1 + f2, f3);
        lemma_concat(f1 + f2 + f3, f4);
        assert(f == f1 + f2 + f3 + f4);
    }
}

proof fn lemma_placeholder_findings(uses: Seq<UseView>, palettes: Seq<(Seq<char>, PaletteModel)>, file: Seq<char>)
    ensures
        all_errors(placeholder_findings(uses, palettes, file, true)),
    decreases uses.len(),
{
    if uses.len() > 0 {
        lemma_placeholder_findings(uses.drop_last(), palettes, file);
        lemma_use_findings(uses.last(), palettes, file);
        lemma_concat(
            placeholder_findings(uses.drop_last(), palettes, file, true),
            use_findings(uses.last(), palettes, file, true),
        );
    }
}

proof fn lemma_placeholder_phase(
    scans: Seq<TemplateScanView>,
    palettes: Option<Seq<(Seq<char>, PaletteModel)>>,
    env_allow: Option<bool>,
    env: Seq<(Seq<char>, Seq<char>)>,
)
    ensures
        all_errors(placeholder_phase(scans, palettes, true, env_allow, env)),
    decreases scans.len(),
{
    if scans.len() > 0 {
        let t = scans.last();
        lemma_placeholder_phase(scans.drop_last(), palettes, env_allow, env);
        lemma_env_findings(t.1, t.0, env_allow, env);
        let prev = placeholder_phase(scans.drop_last(), palettes, true, env_allow, env);
        let e = env_findings(t.1, t.0, true, env_allow, env);
        lemma_concat(prev, e);
        match palettes {
            Some(c) => {
                lemma_placeholder_findings(palette_uses_spec(t.1), c, t.0);
                lemma_concat(prev + e, placeholder_findings(palette_uses_spec(t.1), c, t.0, true));
            },
            None => {
                lemma_concat(prev + e, Seq::empty());
            },
        }
    }
}

// ---------------------------------------------------------------------------
// Template directories
// ---------------------------------------------------------------------------

proof fn lemma_stems_findings(names: Seq<Seq<char>>, stems: Seq<(Seq<char>, bool)>, file: Seq<char>)
    ensures
        all_errors(stems_findings(names, stems, file, true)),
    decreases stems.len(),
{
    if stems.len() > 0 {
        lemma_stems_findings(names, stems.drop_last(), file);
        let f = crate::validate::stem_findings(names, stems.last().0, file, true);
        if f.len() > 0 {
            lemma_one(f[0]);
            assert(f =~= seq![f[0]]);
        }
        lemma_concat(stems_findings(names, stems.drop_last(), file, true), f);
    }
}

proof fn lemma_ambiguous_fragments(names: Seq<Seq<char>>, file: Seq<char>)
    ensures
        all_errors(crate::validate::ambiguous_fragment_findings(names, file, true)),
{
    lemma_stems_findings(names, crate::validate::stems_of(names), file);
}

proof fn lemma_overwrite_findings(paths: Seq<Seq<char>>, name: Seq<char>, file: Seq<char>)
    ensures
        all_errors(overwrite_findings(paths, name, file, true)),
    decreases paths.len(),
{
    if paths.len() > 0 {
        lemma_overwrite_findings(paths.drop_last(), name, file);
        let f = overwrite_findings(paths, name, file, true);
        lemma_push(overwrite_findings(paths.drop_last(), name, file, true), f.last());
        assert(f =~= overwrite_findings(paths.drop_last(), name, file, true).push(f.last()));
    }
}

proof fn lemma_fragment_fold(first: Json, rest: Seq<FragView>, file: Seq<char>)
    ensures
        all_errors(fragment_fold(first, rest, file, true).1),
    decreases rest.len(),
{
    if rest.len() > 0 {
        lemma_fragment_fold(first, rest.drop_last(), file);
        let (m, f) = fragment_fold(first, rest.drop_last(), file, true);
        match rest.last().1 {
            Err(_) => {},
            Ok(o) => {
                let paths = crate::validate::conflicts(m, o, "$"@);
                lemma_overwrite_findings(paths, rest.last().0, file);
                lemma_concat(f, overwrite_findings(paths, rest.last().0, file, true));
            },
        }
    }
}

proof fn lemma_merge_conflict_findings(frags: Seq<FragView>, file: Seq<char>)
    ensures
        all_errors(merge_conflict_findings(frags, file, true)),
{
    if frags.len() >= 2 {
        if let Ok(first) = frags[0].1 {
            lemma_fragment_fold(first, frags.subrange(1, frags.len() as int), file);
        }
    }
}

// ---------------------------------------------------------------------------
// Discovery
// ---------------------------------------------------------------------------

proof fn lemma_listing_entry(es: EntryList, i: int, config_dir: Seq<char>)
    ensures
        all_errors(listing_entry(es, i, config_dir, true).1),
{
    let g = listing_entry(es, i, config_dir, true).1;
    match es[i] {
        Err(_) => {
            lemma_one(g[0]);
            assert(g =~= seq![g[0]]);
        },
        Ok(e) => {
            let name = crate::template::last_component(e.path);
            let shown = crate::validate::shown_path(e.path, config_dir);
            if !crate::template::template_file_name(name) && e.kind == EntryKind::Dir
                && crate::strings::seq_ends_with(name, ".d"@) && name.len() > 2
                && !crate::validate::has_sibling_file(es, crate::validate::before(name, ".d"@))
                && crate::validate::frag_count(e) != 0 {
                lemma_ambiguous_fragments(crate::validate::dir_frag_names(e), shown);
            } else if g.len() > 0 {
                lemma_one(g[0]);
                assert(g =~= seq![g[0]]);
            }
        },
    }
}

proof fn lemma_listing_upto(es: EntryList, n: nat, config_dir: Seq<char>)
    ensures
        all_errors(listing_upto(es, n, config_dir, true).1),
    decreases n,
{
    if n > 0 {
        lemma_listing_upto(es, (n - 1) as nat, config_dir);
        lemma_listing_entry(es, n - 1, config_dir);
        lemma_concat(
            listing_upto(es, (n - 1) as nat, config_dir, true).1,
            listing_entry(es, n - 1, config_dir, true).1,
        );
    }
}

proof fn lemma_glob_entry(r: Result<EntryView, Seq<char>>, resolved: Seq<char>, config_dir: Seq<char>)
    ensures
        all_errors(glob_entry(r, resolved, config_dir, true).1),
{
    let g = glob_entry(r, resolved, config_dir, true).1;
    match r {
        Err(_) => {
            lemma_one(g[0]);
            assert(g =~= seq![g[0]]);
        },
        Ok(e) => {
            let shown = crate::validate::shown_path(e.path, config_dir);
            if e.kind == EntryKind::Dir && crate::validate::frag_count(e) > 0 {
                lemma_ambiguous_fragments(crate::validate::dir_frag_names(e), shown);
            } else if g.len() > 0 {
                lemma_one(g[0]);
                assert(g =~= seq![g[0]]);
            }
        },
    }
}

proof fn lemma_glob_upto(set: TemplateSet, es: EntryList, n: nat, resolved: Seq<char>, config_dir: Seq<char>)
    ensures
        all_errors(glob_upto(set, es, n, resolved, config_dir, true).1),
    decreases n,
{
    if n > 0 {
        lemma_glob_upto(set, es, (n - 1) as nat, resolved, config_dir);
        lemma_glob_entry(es[n - 1], resolved, config_dir);
        lemma_concat(
            glob_upto(set, es, (n - 1) as nat, resolved, config_dir, true).1,
            glob_entry(es[n - 1], resolved, config_dir, true).1,
        );
    }
}

proof fn lemma_pattern_out(set: TemplateSet, pattern: Seq<char>, globbed: Result<EntryList, Seq<char>>, config_dir: Seq<char>)
    ensures
        all_errors(pattern_out(set, pattern, globbed, config_dir, true).1),
{
    let resolved = crate::validate::resolved_pattern(config_dir, pattern);
    let nm = crate::validate::no_match_finding(resolved, true);
    match globbed {
        Err(m) => {
            let g = pattern_out(set, pattern, globbed, config_dir, true).1;
            lemma_one(g[0]);
            lemma_push(seq![g[0]], nm);
            assert(g =~= seq![g[0]].push(nm));
        },
        Ok(es) => {
            lemma_glob_upto(set, es, es.len(), resolved, config_dir);
            let f = glob_upto(set, es, es.len(), resolved, config_dir, true).1;
            lemma_push(f, nm);
        },
    }
}

proof fn lemma_patterns_upto(
    patterns: Seq<Seq<char>>,
    globs: Seq<Result<EntryList, Seq<char>>>,
    n: nat,
    config_dir: Seq<char>,
)
    ensures
        all_errors(patterns_upto(patterns, globs, n, config_dir, true).1),
    decreases n,
{
    if n > 0 {
        lemma_patterns_upto(patterns, globs, (n - 1) as nat, config_dir);
        let (s, f) = patterns_upto(patterns, globs, (n - 1) as nat, config_dir, true);
        lemma_pattern_out(s, patterns[n - 1], globs[n - 1], config_dir);
        lemma_concat(f, pattern_out(s, patterns[n - 1], globs[n - 1], config_dir, true).1);
    }
}

proof fn lemma_discovery(
    config_dir: Seq<char>,
    patterns: Seq<Seq<char>>,
    listing: Result<EntryList, Seq<char>>,
    globs: Seq<Result<EntryList, Seq<char>>>,
)
    ensures
        all_errors(discovery(config_dir, patterns, listing, globs, true).1),
{
    if patterns.len() == 0 {
        match listing {
            Err(_) => {
                let g = listing_phase(config_dir, listing, true).1;
                lemma_one(g[0]);
                assert(g =~= seq![g[0]]);
            },
            Ok(es) => lemma_listing_upto(es, es.len(), config_dir),
        }
    } else {
        lemma_patterns_upto(patterns, globs, patterns.len(), config_dir);
    }
}

// ---------------------------------------------------------------------------
// Scanning templates and schemas
// ---------------------------------------------------------------------------

proof fn lemma_scan_template(e: EntryView, config_dir: Seq<char>)
    ensures
        all_errors(scan_template(e, config_dir, true).1),
{
    let file = crate::validate::shown_path(e.path, config_dir);
    let merges = if e.kind == EntryKind::Dir {
        match e.fragments {
            Ok(fs) => merge_conflict_findings(fs, file, true),
            Err(_) => Seq::empty(),
        }
    } else {
        Seq::empty()
    };
    if e.kind == EntryKind::Dir {
        if let Ok(fs) = e.fragments {
            lemma_merge_conflict_findings(fs, file);
        }
    }
    match crate::validate::entry_load(e) {
        Ok(v) => {
            lemma_scan_value(v, "$"@, None, file);
            lemma_concat(merges, scan_value(v, "$"@, None, file).1);
        },
        Err(m) => {
            let x = (Severity::Error, file, "$"@, "invalid-template"@, m);
            lemma_one(x);
            lemma_concat(merges, seq![x]);
        },
    }
}

proof fn lemma_scans_upto(set: TemplateSet, n: nat, config_dir: Seq<char>)
    ensures
        all_errors(scans_upto(set, n, config_dir, true).1),
    decreases n,
{
    if n > 0 {
        lemma_scans_upto(set, (n - 1) as nat, config_dir);
        lemma_scan_template(set[n - 1].1, config_dir);
        lemma_concat(scans_upto(set, (n - 1) as nat, config_dir, true).1, scan_template(set[n - 1].1, config_dir, true).1);
    }
}

proof fn lemma_violation_findings(fs: Seq<(Seq<char>, Seq<char>, Seq<char>)>, name: Seq<char>, file: Seq<char>)
    ensures
        all_errors(violation_findings(fs, name, file, true)),
    decreases fs.len(),
{
    if fs.len() > 0 {
        lemma_violation_findings(fs.drop_last(), name, file);
        let f = violation_findings(fs, name, file, true);
        lemma_push(violation_findings(fs.drop_last(), name, file, true), f.last());
        assert(f =~= violation_findings(fs.drop_last(), name, file, true).push(f.last()));
    }
}

proof fn lemma_schema_template(name: Seq<char>, p: PaletteModel, e: EntryView, config_dir: Seq<char>)
    ensures
        all_errors(schema_template(name, p, e, config_dir, true)),
{
    let f = schema_template(name, p, e, config_dir, true);
    let file = crate::validate::shown_path(e.path, config_dir);
    if let Ok(v) = crate::validate::entry_load(e) {
        if let Ok(rendered) = crate::substitute::subst_value_spec(crate::template::mapping_of(p), false, v) {
            match crate::schema::schema_check(
                crate::json::json_text(crate::schema::schema_spec(p)),
                crate::json::json_text(rendered),
            ) {
                Ok(vs) => lemma_violation_findings(vs, name, file),
                Err(_) => {
                    lemma_one(f[0]);
                    assert(f =~= seq![f[0]]);
                },
            }
        }
    }
}

proof fn lemma_schema_templates(name: Seq<char>, p: PaletteModel, set: TemplateSet, n: nat, config_dir: Seq<char>)
    ensures
        all_errors(schema_templates(name, p, set, n, config_dir, true)),
    decreases n,
{
    if n > 0 {
        lemma_schema_templates(name, p, set, (n - 1) as nat, config_dir);
        lemma_schema_template(name, p, set[n - 1].1, config_dir);
        lemma_concat(
            schema_templates(name, p, set, (n - 1) as nat, config_dir, true),
            schema_template(name, p, set[n - 1].1, config_dir, true),
        );
    }
}

proof fn lemma_schema_phase(c: Seq<(Seq<char>, PaletteModel)>, set: TemplateSet, config_dir: Seq<char>)
    ensures
        all_errors(schema_phase(c, set, config_dir, true)),
    decreases c.len(),
{
    if c.len() > 0 {
        lemma_schema_phase(c.drop_last(), set, config_dir);
        lemma_schema_templates(c.last().0, c.last().1, set, set.len(), config_dir);
        lemma_concat(
            schema_phase(c.drop_last(), set, config_dir, true),
            schema_templates(c.last().0, c.last().1, set, set.len(), config_dir, true),
        );
    }
}

// ---------------------------------------------------------------------------
// The whole validation
// ---------------------------------------------------------------------------

/// Findings that are all errors count no warning.
proof fn lemma_no_warning_counted(fs: Seq<FindingView>)
    requires
        all_errors(fs),
    ensures
        count_of(fs, Severity::Warning) == 0,
    decreases fs.len(),
{
    if fs.len() > 0 {
        assert(fs.last() == fs[fs.len() - 1]);
        assert forall|i: int| 0 <= i < fs.drop_last().len() implies (#[trigger] fs.drop_last()[i]).0 == Severity::Error by {
            assert(fs.drop_last()[i] == fs[i]);
        }
        lemma_no_warning_counted(fs.drop_last());
    }
}

/// In strict mode a validation reports no warning: every finding, of every
/// check, is an error.
pub proof fn law_strict_validation_has_no_warnings(config_dir: Seq<char>, opts: &ValidateOpts, input: &ValidateInput)
    requires
        opts.strict,
    ensures
        all_errors(validate_spec(config_dir, opts, input)),
        count_of(validate_spec(config_dir, opts, input), Severity::Warning) == 0,
{
    let patterns = Seq::new(opts.templates@.len(), |i: int| opts.templates@[i]@);
    let palettes_path = crate::validate::palettes_path_of(config_dir, crate::config::opt_text(opts.palettes_path));
    let palettes = crate::validate::palettes_view(input.palettes);
    let listing = crate::validate::listing_view(input.listing);
    let globs = crate::validate::globs_view(input.globs@);
    let env = crate::substitute::string_pairs(input.env@);
    let (set, found) = discovery(config_dir, patterns, listing, globs, true);
    let (scans, scanned) = scans_upto(set, set.len(), config_dir, true);
    let pal = match palettes {
        Ok(c) => Some(c),
        Err(_) => None,
    };
    let p1 = palette_phase(config_dir, palettes_path, palettes, true);
    match palettes {
        Err(m) => {
            lemma_one(p1[0]);
            assert(p1 =~= seq![p1[0]]);
        },
        Ok(c) => lemma_palettes_alias_findings(c, crate::validate::shown_path(palettes_path, config_dir)),
    }
    lemma_discovery(config_dir, patterns, listing, globs);
    let nt = no_templates_findings(set, config_dir, true);
    if nt.len() > 0 {
        lemma_one(nt[0]);
        assert(nt =~= seq![nt[0]]);
    }
    lemma_scans_upto(set, set.len(), config_dir);
    lemma_placeholder_phase(scans, pal, opts.env_allow, env);
    let ph = placeholder_phase(scans, pal, true, opts.env_allow, env);
    let sc = if opts.schema && palettes is Ok {
        schema_phase(palettes->Ok_0, set, config_dir, true)
    } else {
        Seq::empty()
    };
    if opts.schema && palettes is Ok {
        lemma_schema_phase(palettes->Ok_0, set, config_dir);
    }
    lemma_concat(p1, found);
    lemma_concat(p1 + found, nt);
    lemma_concat(p1 + found + nt, scanned);
    lemma_concat(p1 + found + nt + scanned, ph);
    lemma_concat(p1 + found + nt + scanned + ph, sc);
    let all = validate_spec(config_dir, opts, input);
    assert(all == p1 + found + nt + scanned + ph + sc);
    lemma_no_warning_counted(all);
}

} // verus!
