//! Placeholder substitution.
//!
//! A string value that is exactly one placeholder `{{key}}` is replaced by the
//! mapping's value for `key`, whatever its type. Placeholders inside longer
//! strings are replaced by the mapping's text (non-string values by their
//! compact JSON text). A member `"variant": "{{x-variant}}"` whose key is not
//! in the mapping is removed. In strict mode an unknown key, or a non-string
//! value inside a longer string, is an error.

use vstd::prelude::*;
use crate::json::{
    Json, Entries, JsonValue, JsonMap, entries_get, entries_put, has_key, keys_sorted, json_text,
    json_text_of, lemma_object_view, lemma_array_view, lemma_put_sorted, lemma_drop_last_get,
};
use crate::pattern::{
    Hit, Scan, PLACEHOLDER_PATTERN, pattern_compiles, pattern_scan, rejoin, regex_check,
    regex_scan,
};
use crate::strings::{seq_trim, seq_ends_with, trim, str_eq, ends_with, concat};

verus! {

/// Why a substitution failed.
#[derive(Debug)]
pub enum SubstituteError {
    MissingPlaceholder { key: String },
    NonStringInStringPlaceholder { key: String },
    Regex { source: regex::Error },
}

/// The model of a substitution failure.
pub enum SubstFailure {
    Missing(Seq<char>),
    NonString(Seq<char>),
    /// The placeholder pattern was refused (the `regex::Error` itself is
    /// opaque).
    Regex,
}

impl View for SubstituteError {
    type V = SubstFailure;

    open spec fn view(&self) -> SubstFailure {
        match self {
            SubstituteError::MissingPlaceholder { key } => SubstFailure::Missing(key@),
            SubstituteError::NonStringInStringPlaceholder { key } => SubstFailure::NonString(key@),
            SubstituteError::Regex { .. } => SubstFailure::Regex,
        }
    }
}

// ---------------------------------------------------------------------------
// Specification
// ---------------------------------------------------------------------------

/// The scan of `text` by the placeholder pattern.
pub open spec fn scan_of(text: Seq<char>) -> (Seq<Seq<char>>, Seq<Hit>) {
    pattern_scan(PLACEHOLDER_PATTERN@, text)
}

/// The key named by a placeholder match: its group without surrounding blanks.
pub open spec fn hit_key(h: Hit) -> Seq<char> {
    seq_trim(h.1)
}

/// The key of `text` when `text`, trimmed, is exactly one placeholder.
pub open spec fn exact_placeholder(text: Seq<char>) -> Option<Seq<char>> {
    let t = seq_trim(text);
    let hits = scan_of(t).1;
    if hits.len() > 0 && hits[0].0 == t {
        Some(hit_key(hits[0]))
    } else {
        None
    }
}

/// A string that is exactly one placeholder resolves to the mapping's value;
/// an unknown key is an error in strict mode and no resolution otherwise.
pub open spec fn resolve_spec(m: Entries, strict: bool, text: Seq<char>) -> Result<
    Option<Json>,
    SubstFailure,
> {
    match exact_placeholder(text) {
        None => Ok(None),
        Some(k) => match entries_get(m, k) {
            Some(v) => Ok(Some(v)),
            None => if strict {
                Err(SubstFailure::Missing(k))
            } else {
                Ok(None)
            },
        },
    }
}

/// The key of a `variant` member's placeholder `{{x-variant}}` that the
/// mapping does not define.
pub open spec fn missing_variant_spec(m: Entries, text: Seq<char>, key: Seq<char>) -> Option<
    Seq<char>,
> {
    match exact_placeholder(text) {
        Some(p) => if key == "variant"@ && seq_ends_with(p, "-variant"@) && !has_key(m, p) {
            Some(p)
        } else {
            None
        },
        None => None,
    }
}

/// What a placeholder inside a longer string is replaced by.
pub open spec fn replacement(m: Entries, h: Hit) -> Seq<char> {
    match entries_get(m, hit_key(h)) {
        Some(Json::Str(s)) => s,
        Some(v) => json_text(v),
        None => h.0,
    }
}

/// The text with every placeholder replaced.
pub open spec fn replaced_text(m: Entries, gaps: Seq<Seq<char>>, hits: Seq<Hit>) -> Seq<char>
    decreases hits.len(),
{
    if hits.len() == 0 || gaps.len() == 0 {
        if gaps.len() > 0 {
            gaps[0]
        } else {
            Seq::empty()
        }
    } else {
        replaced_text(m, gaps.drop_last(), hits.drop_last()) + replacement(m, hits.last())
            + gaps.last()
    }
}

/// The key of the first placeholder that the mapping does not define.
pub open spec fn first_missing(m: Entries, hits: Seq<Hit>) -> Option<Seq<char>>
    decreases hits.len(),
{
    if hits.len() == 0 {
        None
    } else {
        match first_missing(m, hits.drop_last()) {
            Some(k) => Some(k),
            None => if !has_key(m, hit_key(hits.last())) {
                Some(hit_key(hits.last()))
            } else {
                None
            },
        }
    }
}

/// The key of the first placeholder whose value is not a string.
pub open spec fn first_non_string(m: Entries, hits: Seq<Hit>) -> Option<Seq<char>>
    decreases hits.len(),
{
    if hits.len() == 0 {
        None
    } else {
        match first_non_string(m, hits.drop_last()) {
            Some(k) => Some(k),
            None => match entries_get(m, hit_key(hits.last())) {
                Some(v) => if !(v is Str) {
                    Some(hit_key(hits.last()))
                } else {
                    None
                },
                None => None,
            },
        }
    }
}

/// Substitution inside a string: every placeholder replaced; in strict mode
/// an unknown key is an error, and then a non-string value.
pub open spec fn subst_string_spec(m: Entries, strict: bool, text: Seq<char>) -> Result<
    Seq<char>,
    SubstFailure,
> {
    let s = scan_of(text);
    if strict && first_missing(m, s.1) is Some {
        Err(SubstFailure::Missing(first_missing(m, s.1)->0))
    } else if strict && first_non_string(m, s.1) is Some {
        Err(SubstFailure::NonString(first_non_string(m, s.1)->0))
    } else {
        Ok(replaced_text(m, s.0, s.1))
    }
}

/// Substitution of a string value: a whole placeholder is replaced by its
/// value, any other string has its placeholders replaced.
pub open spec fn subst_node_spec(m: Entries, strict: bool, text: Seq<char>) -> Result<
    Json,
    SubstFailure,
> {
    match resolve_spec(m, strict, text) {
        Err(e) => Err(e),
        Ok(Some(v)) => Ok(v),
        Ok(None) => match subst_string_spec(m, strict, text) {
            Ok(s) => Ok(Json::Str(s)),
            Err(e) => Err(e),
        },
    }
}

/// Substitution of a value: strings are substituted, arrays element by
/// element and objects member by member, in order; the first failure wins.
pub open spec fn subst_value_spec(m: Entries, strict: bool, v: Json) -> Result<Json, SubstFailure>
    decreases v, 1int,
{
    match v {
        Json::Object(e) => match subst_members_spec(m, strict, e) {
            Ok(e2) => Ok(Json::Object(e2)),
            Err(x) => Err(x),
        },
        Json::Array(a) => match subst_elements_spec(m, strict, a) {
            Ok(a2) => Ok(Json::Array(a2)),
            Err(x) => Err(x),
        },
        Json::Str(t) => subst_node_spec(m, strict, t),
        _ => Ok(v),
    }
}

pub open spec fn subst_elements_spec(m: Entries, strict: bool, a: Seq<Json>) -> Result<
    Seq<Json>,
    SubstFailure,
>
    decreases a, 0int,
{
    if a.len() == 0 {
        Ok(Seq::empty())
    } else {
        proof {
            assert(decreases_to!(a => a[a.len() - 1]));
        }
        match subst_elements_spec(m, strict, a.drop_last()) {
            Err(x) => Err(x),
            Ok(p) => match subst_value_spec(m, strict, a.last()) {
                Err(x) => Err(x),
                Ok(y) => Ok(p.push(y)),
            },
        }
    }
}

pub open spec fn subst_members_spec(m: Entries, strict: bool, e: Entries) -> Result<
    Entries,
    SubstFailure,
>
    decreases e, 0int,
{
    if e.len() == 0 {
        Ok(Seq::empty())
    } else {
        proof {
            assert(decreases_to!(e => e[e.len() - 1]));
        }
        match subst_members_spec(m, strict, e.drop_last()) {
            Err(x) => Err(x),
            Ok(p) => match subst_member_spec(m, strict, e.last().0, e.last().1) {
                Err(x) => Err(x),
                Ok(None) => Ok(p),
                Ok(Some(y)) => Ok(p.push((e.last().0, y))),
            },
        }
    }
}

/// Substitution of the member `key` of an object: `None` when the member is
/// removed.
pub open spec fn subst_member_spec(m: Entries, strict: bool, key: Seq<char>, child: Json) -> Result<
    Option<Json>,
    SubstFailure,
>
    decreases child, 2int,
{
    match child {
        Json::Str(t) => match missing_variant_spec(m, t, key) {
            Some(p) => if strict {
                Err(SubstFailure::Missing(p))
            } else {
                Ok(None)
            },
            None => match subst_node_spec(m, strict, t) {
                Ok(x) => Ok(Some(x)),
                Err(x) => Err(x),
            },
        },
        Json::Object(_) => match subst_value_spec(m, strict, child) {
            Ok(x) => Ok(Some(x)),
            Err(x) => Err(x),
        },
        Json::Array(_) => match subst_value_spec(m, strict, child) {
            Ok(x) => Ok(Some(x)),
            Err(x) => Err(x),
        },
        _ => Ok(Some(child)),
    }
}

/// The model of a substitution outcome.
pub open spec fn outcome<T: View>(r: Result<T, SubstituteError>) -> Result<T::V, SubstFailure> {
    match r {
        Ok(v) => Ok(v@),
        Err(e) => Err(e@),
    }
}

/// The model of a member substitution outcome.
pub open spec fn member_outcome(r: Result<Option<JsonValue>, SubstituteError>) -> Result<
    Option<Json>,
    SubstFailure,
> {
    match r {
        Ok(Some(v)) => Ok(Some(v@)),
        Ok(None) => Ok(None),
        Err(e) => Err(e@),
    }
}

/// Pairs of strings as character sequences.
pub open spec fn string_pairs(v: Seq<(String, String)>) -> Seq<(Seq<char>, Seq<char>)> {
    Seq::new(v.len(), |i: int| (v[i].0@, v[i].1@))
}

/// `acc` with every environment entry set as a string value, in order.
pub open spec fn put_env(acc: Entries, env: Seq<(Seq<char>, Seq<char>)>) -> Entries
    decreases env.len(),
{
    if env.len() == 0 {
        acc
    } else {
        entries_put(put_env(acc, env.drop_last()), env.last().0, Json::Str(env.last().1))
    }
}

/// `acc` with every member of `e` set, in order.
pub open spec fn put_all(acc: Entries, e: Entries) -> Entries
    decreases e.len(),
{
    if e.len() == 0 {
        acc
    } else {
        entries_put(put_all(acc, e.drop_last()), e.last().0, e.last().1)
    }
}

/// The mapping used with environment entries: environment values as strings,
/// overridden by the mapping's own members.
pub open spec fn env_merged(m: Entries, env: Seq<(Seq<char>, Seq<char>)>) -> Entries {
    put_all(put_env(Seq::empty(), env), m)
}

/// The last value given to `k` in `env`.
pub open spec fn env_last(env: Seq<(Seq<char>, Seq<char>)>, k: Seq<char>) -> Option<Seq<char>>
    decreases env.len(),
{
    if env.len() == 0 {
        None
    } else if env.last().0 == k {
        Some(env.last().1)
    } else {
        env_last(env.drop_last(), k)
    }
}

// ---------------------------------------------------------------------------
// Laws
// ---------------------------------------------------------------------------

proof fn lemma_put_env(env: Seq<(Seq<char>, Seq<char>)>)
    ensures
        keys_sorted(put_env(Seq::empty(), env)),
        forall|k: Seq<char>| #[trigger]
            entries_get(put_env(Seq::empty(), env), k) == match env_last(env, k) {
                Some(s) => Some(Json::Str(s)),
                None => None,
            },
    decreases env.len(),
{
    if env.len() > 0 {
        lemma_put_env(env.drop_last());
        lemma_put_sorted(put_env(Seq::empty(), env.drop_last()), env.last().0, Json::Str(env.last().1));
    }
}

pub(crate) proof fn lemma_put_all(acc: Entries, e: Entries)
    requires
        keys_sorted(acc),
        keys_sorted(e),
    ensures
        keys_sorted(put_all(acc, e)),
        forall|k: Seq<char>| #[trigger]
            entries_get(put_all(acc, e), k) == if has_key(e, k) {
                entries_get(e, k)
            } else {
                entries_get(acc, k)
            },
    decreases e.len(),
{
    if e.len() > 0 {
        let d = e.drop_last();
        lemma_drop_last_get(e);
        lemma_put_all(acc, d);
        lemma_put_sorted(put_all(acc, d), e.last().0, e.last().1);
        assert forall|k: Seq<char>| #[trigger]
            entries_get(put_all(acc, e), k) == if has_key(e, k) {
                entries_get(e, k)
            } else {
                entries_get(acc, k)
            } by {
            if k != e.last().0 {
                assert(has_key(d, k) == has_key(e, k)) by {
                    if has_key(e, k) {
                        assert(entries_get(e, k) is Some);
                        assert(entries_get(d, k) is Some);
                    }
                    if has_key(d, k) {
                        assert(entries_get(d, k) is Some);
                    }
                }
            } else {
                assert(has_key(e, k)) by {
                    assert(e[e.len() - 1].0 == k);
                }
            }
        }
    }
}

/// With environment entries, the mapping's own members take precedence: a
/// key the mapping defines resolves to the mapping's value, any other key to
/// the environment's value as a string, or to nothing.
pub proof fn law_env_precedence(m: Entries, env: Seq<(Seq<char>, Seq<char>)>, k: Seq<char>)
    requires
        keys_sorted(m),
    ensures
        keys_sorted(env_merged(m, env)),
        has_key(m, k) ==> entries_get(env_merged(m, env), k) == entries_get(m, k),
        !has_key(m, k) ==> entries_get(env_merged(m, env), k) == match env_last(env, k) {
            Some(s) => Some(Json::Str(s)),
            None => None,
        },
{
    lemma_put_env(env);
    lemma_put_all(put_env(Seq::empty(), env), m);
}

/// A value that comes only from the environment is always a string.
pub proof fn law_env_values_are_strings(
    m: Entries,
    env: Seq<(Seq<char>, Seq<char>)>,
    k: Seq<char>,
)
    requires
        keys_sorted(m),
        !has_key(m, k),
        entries_get(env_merged(m, env), k) is Some,
    ensures
        entries_get(env_merged(m, env), k)->0 is Str,
{
    law_env_precedence(m, env, k);
}

proof fn lemma_elements_permissive(m: Entries, a: Seq<Json>)
    ensures
        subst_elements_spec(m, false, a) is Ok,
    decreases a, 0int,
{
    if a.len() > 0 {
        assert(decreases_to!(a => a[a.len() - 1]));
        lemma_elements_permissive(m, a.drop_last());
        law_permissive_never_fails(m, a.last());
    }
}

proof fn lemma_members_permissive(m: Entries, e: Entries)
    ensures
        subst_members_spec(m, false, e) is Ok,
    decreases e, 0int,
{
    if e.len() > 0 {
        assert(decreases_to!(e => e[e.len() - 1]));
        lemma_members_permissive(m, e.drop_last());
        lemma_member_permissive(m, e.last().0, e.last().1);
    }
}

proof fn lemma_member_permissive(m: Entries, key: Seq<char>, child: Json)
    ensures
        subst_member_spec(m, false, key, child) is Ok,
    decreases child, 2int,
{
    match child {
        Json::Object(_) => law_permissive_never_fails(m, child),
        Json::Array(_) => law_permissive_never_fails(m, child),
        _ => {},
    }
}

/// Outside strict mode substitution never fails.
pub proof fn law_permissive_never_fails(m: Entries, v: Json)
    ensures
        subst_value_spec(m, false, v) is Ok,
    decreases v, 1int,
{
    match v {
        Json::Object(e) => lemma_members_permissive(m, e),
        Json::Array(a) => lemma_elements_permissive(m, a),
        _ => {},
    }
}

/// A string in which the placeholder pattern finds nothing is left as it is.
pub proof fn law_plain_text_unchanged(m: Entries, strict: bool, text: Seq<char>)
    requires
        scan_of(text).1.len() == 0,
        scan_of(text).0.len() == 1,
        rejoin(scan_of(text).0, scan_of(text).1) == text,
    ensures
        subst_string_spec(m, strict, text) == Ok::<Seq<char>, SubstFailure>(text),
{
}

// ---------------------------------------------------------------------------
// Implementation
// ---------------------------------------------------------------------------

/// Applies a mapping to values.
pub struct SubstituteBuilder<'a> {
    mapping: &'a JsonMap,
    strict: bool,
}

impl<'a> SubstituteBuilder<'a> {
    #[verifier::type_invariant]
    spec fn inv(self) -> bool {
        pattern_compiles(PLACEHOLDER_PATTERN@) && keys_sorted(self.mapping@)
    }

    /// The mapping applied.
    pub closed spec fn entries(self) -> Entries {
        self.mapping@
    }

    /// Whether unknown keys are errors.
    pub closed spec fn is_strict(self) -> bool {
        self.strict
    }

    /// A permissive builder for `mapping`; fails when the placeholder pattern
    /// cannot be compiled.
    pub fn new(mapping: &'a JsonMap) -> (r: Result<Self, SubstituteError>)
        requires
            keys_sorted(mapping@),
        ensures
            r is Ok <==> pattern_compiles(PLACEHOLDER_PATTERN@),
            r matches Ok(b) ==> b.entries() == mapping@ && !b.is_strict(),
            r matches Err(e) ==> e@ == SubstFailure::Regex,
    {
        match regex_check(PLACEHOLDER_PATTERN) {
            Ok(()) => Ok(SubstituteBuilder { mapping, strict: false }),
            Err(source) => Err(SubstituteError::Regex { source }),
        }
    }

    /// The same builder in strict or permissive mode.
    pub fn strict(self, strict: bool) -> (r: Self)
        ensures
            r.entries() == self.entries(),
            r.is_strict() == strict,
    {
        proof {
            use_type_invariant(&self);
        }
        SubstituteBuilder { mapping: self.mapping, strict }
    }

    /// Substitutes placeholders in `value`. On failure `value` is left as it
    /// was.
    pub fn apply(&self, value: &mut JsonValue) -> (r: Result<(), SubstituteError>)
        ensures
            match subst_value_spec(self.entries(), self.is_strict(), old(value)@) {
                Ok(v) => r is Ok && final(value)@ == v,
                Err(f) => r matches Err(e) && e@ == f && final(value)@ == old(value)@,
            },
    {
        proof {
            use_type_invariant(self);
        }
        match self.substitute_value(value) {
            Ok(v) => {
                *value = v;
                Ok(())
            },
            Err(e) => Err(e),
        }
    }

    fn scan(&self, text: &str) -> (s: Scan)
        ensures
            s@ == scan_of(text@),
            s.gaps@.len() == s.hits@.len() + 1,
            rejoin(s@.0, s@.1) == text@,
    {
        proof {
            use_type_invariant(self);
        }
        match regex_scan(PLACEHOLDER_PATTERN, text) {
            Ok(s) => s,
            Err(_) => {
                proof {
                    assert(false);
                }
                Scan { gaps: Vec::new(), hits: Vec::new() }
            },
        }
    }

    fn exact_placeholder_of(&self, text: &str) -> (r: Option<String>)
        ensures
            r matches Some(k) ==> exact_placeholder(text@) == Some(k@),
            r is None ==> exact_placeholder(text@) is None,
    {
        let t = trim(text);
        let s = self.scan(t.as_str());
        if s.hits.len() > 0 && str_eq(s.hits[0].0.as_str(), t.as_str()) {
            assert(s@.1[0] == (s.hits@[0].0@, s.hits@[0].1@));
            Some(trim(s.hits[0].1.as_str()))
        } else {
            proof {
                if s.hits@.len() > 0 {
                    assert(s@.1[0] == (s.hits@[0].0@, s.hits@[0].1@));
                }
            }
            None
        }
    }

    fn lookup(&self, key: &str) -> (r: Option<&JsonValue>)
        ensures
            r matches Some(v) ==> entries_get(self.entries(), key@) == Some(v@),
            r is None ==> entries_get(self.entries(), key@) is None,
    {
        proof {
            use_type_invariant(self);
        }
        self.mapping.get(key)
    }

    fn resolve_placeholder_value(&self, text: &str) -> (r: Result<Option<JsonValue>, SubstituteError>)
        ensures
            member_outcome(r) == resolve_spec(self.entries(), self.is_strict(), text@),
    {
        match self.exact_placeholder_of(text) {
            None => Ok(None),
            Some(key) => match self.lookup(key.as_str()) {
                Some(v) => Ok(Some(v.deep_clone())),
                None => {
                    if self.strict {
                        Err(SubstituteError::MissingPlaceholder { key })
                    } else {
                        Ok(None)
                    }
                },
            },
        }
    }

    fn missing_variant_placeholder(&self, text: &str, key: &str) -> (r: Option<String>)
        ensures
            r matches Some(p) ==> missing_variant_spec(self.entries(), text@, key@) == Some(p@),
            r is None ==> missing_variant_spec(self.entries(), text@, key@) is None,
    {
        match self.exact_placeholder_of(text) {
            None => None,
            Some(p) => {
                if !str_eq(key, "variant") {
                    return None;
                }
                if !ends_with(p.as_str(), "-variant") {
                    return None;
                }
                if self.lookup(p.as_str()).is_some() {
                    proof {
                        assert(has_key(self.entries(), p@));
                    }
                    return None;
                }
                proof {
                    assert(!has_key(self.entries(), p@));
                }
                Some(p)
            },
        }
    }

    fn substitute_string(&self, text: &str) -> (r: Result<String, SubstituteError>)
        ensures
            outcome(r) == subst_string_spec(self.entries(), self.is_strict(), text@),
    {
        let s = self.scan(text);
        let ghost m = self.entries();
        let ghost gaps = s@.0;
        let ghost hits = s@.1;
        let mut out = s.gaps[0].clone();
        let mut missing: Option<String> = None;
        let mut non_string: Option<String> = None;
        let mut i: usize = 0;
        proof {
            assert(gaps.subrange(0, 1).drop_last().len() == 0);
            assert(hits.subrange(0, 0).len() == 0);
        }
        while i < s.hits.len()
            invariant
                i <= s.hits@.len(),
                s.gaps@.len() == s.hits@.len() + 1,
                gaps == s@.0,
                hits == s@.1,
                m == self.entries(),
                out@ == replaced_text(m, gaps.subrange(0, i + 1), hits.subrange(0, i as int)),
                match missing {
                    Some(k) => first_missing(m, hits.subrange(0, i as int)) == Some(k@),
                    None => first_missing(m, hits.subrange(0, i as int)) is None,
                },
                match non_string {
                    Some(k) => first_non_string(m, hits.subrange(0, i as int)) == Some(k@),
                    None => first_non_string(m, hits.subrange(0, i as int)) is None,
                },
            decreases s.hits@.len() - i,
        {
            let key = trim(s.hits[i].1.as_str());
            let ghost h = hits[i as int];
            assert(h == (s.hits@[i as int].0@, s.hits@[i as int].1@));
            assert(key@ == hit_key(h));
            let piece: String = match self.lookup(key.as_str()) {
                Some(v) => match v {
                    JsonValue::String(t) => t.clone(),
                    _ => {
                        if non_string.is_none() {
                            non_string = Some(key.clone());
                        }
                        json_text_of(v)
                    },
                },
                None => {
                    if missing.is_none() {
                        missing = Some(key.clone());
                    }
                    s.hits[i].0.clone()
                },
            };
            assert(piece@ == replacement(m, h));
            let with_piece = concat(out.as_str(), piece.as_str());
            out = concat(with_piece.as_str(), s.gaps[i + 1].as_str());
            proof {
                let g2 = gaps.subrange(0, i + 2);
                let h2 = hits.subrange(0, i + 1);
                assert(g2.drop_last() =~= gaps.subrange(0, i + 1));
                assert(h2.drop_last() =~= hits.subrange(0, i as int));
                assert(h2.last() == h);
                assert(g2.last() == gaps[i + 1]);
                assert(gaps[i + 1] == s.gaps@[i + 1]@);
            }
            i = i + 1;
        }
        proof {
            assert(gaps.subrange(0, i + 1) =~= gaps);
            assert(hits.subrange(0, i as int) =~= hits);
        }
        if self.strict {
            if let Some(key) = missing {
                return Err(SubstituteError::MissingPlaceholder { key });
            }
            if let Some(key) = non_string {
                return Err(SubstituteError::NonStringInStringPlaceholder { key });
            }
        }
        Ok(out)
    }

    fn substitute_node(&self, text: &str) -> (r: Result<JsonValue, SubstituteError>)
        ensures
            outcome(r) == subst_node_spec(self.entries(), self.is_strict(), text@),
    {
        match self.resolve_placeholder_value(text) {
            Err(e) => Err(e),
            Ok(Some(v)) => Ok(v),
            Ok(None) => match self.substitute_string(text) {
                Ok(t) => Ok(JsonValue::String(t)),
                Err(e) => Err(e),
            },
        }
    }

    fn substitute_member(&self, key: &str, child: &JsonValue) -> (r: Result<
        Option<JsonValue>,
        SubstituteError,
    >)
        ensures
            member_outcome(r) == subst_member_spec(
                self.entries(),
                self.is_strict(),
                key@,
                child@,
            ),
        decreases child, 2int,
    {
        match child {
            JsonValue::String(t) => {
                match self.missing_variant_placeholder(t.as_str(), key) {
                    Some(p) => {
                        if self.strict {
                            Err(SubstituteError::MissingPlaceholder { key: p })
                        } else {
                            Ok(None)
                        }
                    },
                    None => match self.substitute_node(t.as_str()) {
                        Ok(x) => Ok(Some(x)),
                        Err(e) => Err(e),
                    },
                }
            },
            JsonValue::Object(_) => match self.substitute_value(child) {
                Ok(x) => Ok(Some(x)),
                Err(e) => Err(e),
            },
            JsonValue::Array(_) => match self.substitute_value(child) {
                Ok(x) => Ok(Some(x)),
                Err(e) => Err(e),
            },
            _ => Ok(Some(child.deep_clone())),
        }
    }

    #[verifier::loop_isolation(false)]
    fn substitute_value(&self, value: &JsonValue) -> (r: Result<JsonValue, SubstituteError>)
        ensures
            outcome(r) == subst_value_spec(self.entries(), self.is_strict(), value@),
        decreases value, 1int,
    {
        let ghost m = self.entries();
        let ghost strict = self.is_strict();
        match value {
            JsonValue::Object(obj) => {
                proof {
                    lemma_object_view(obj);
                }
                let mut out: Vec<(String, JsonValue)> = Vec::new();
                let mut i: usize = 0;
                proof {
                    assert(obj@.subrange(0, 0) =~= Seq::<(Seq<char>, Json)>::empty());
                    assert(JsonMap { entries: out }@ =~= Seq::<(Seq<char>, Json)>::empty());
                }
                while i < obj.entries.len()
                    invariant
                        i <= obj.entries.len(),
                        subst_members_spec(m, strict, obj@.subrange(0, i as int)) == Ok::<
                            Entries,
                            SubstFailure,
                        >(JsonMap { entries: out }@),
                    decreases obj.entries.len() - i,
                {
                    let key = &obj.entries[i].0;
                    let child = &obj.entries[i].1;
                    proof {
                        assert(decreases_to!(value => obj.entries@[i as int].1));
                        let next = obj@.subrange(0, i + 1);
                        assert(next.drop_last() =~= obj@.subrange(0, i as int));
                        assert(next.last() == (key@, child@));
                    }
                    match self.substitute_member(key.as_str(), child) {
                        Err(e) => {
                            proof {
                                lemma_members_error_prefix(m, strict, obj@, i as int);
                            }
                            return Err(e);
                        },
                        Ok(None) => {},
                        Ok(Some(x)) => {
                            let ghost before = JsonMap { entries: out }@;
                            out.push((key.clone(), x));
                            proof {
                                assert(JsonMap { entries: out }@ =~= before.push((key@, x@)));
                            }
                        },
                    }
                    i = i + 1;
                }
                proof {
                    assert(obj@.subrange(0, obj@.len() as int) =~= obj@);
                }
                let res = JsonValue::Object(JsonMap { entries: out });
                proof {
                    lemma_object_view(&JsonMap { entries: out });
                }
                Ok(res)
            },
            JsonValue::Array(xs) => {
                proof {
                    lemma_array_view(xs);
                }
                let ghost items = xs@.map_values(|x: JsonValue| x@);
                let mut out: Vec<JsonValue> = Vec::new();
                let mut i: usize = 0;
                proof {
                    assert(items.subrange(0, 0) =~= Seq::<Json>::empty());
                    assert(out@.map_values(|x: JsonValue| x@) =~= Seq::<Json>::empty());
                }
                while i < xs.len()
                    invariant
                        i <= xs.len(),
                        items == xs@.map_values(|x: JsonValue| x@),
                        subst_elements_spec(m, strict, items.subrange(0, i as int)) == Ok::<
                            Seq<Json>,
                            SubstFailure,
                        >(out@.map_values(|x: JsonValue| x@)),
                    decreases xs.len() - i,
                {
                    proof {
                        assert(decreases_to!(value => xs@[i as int]));
                        let next = items.subrange(0, i + 1);
                        assert(next.drop_last() =~= items.subrange(0, i as int));
                        assert(next.last() == xs@[i as int]@);
                    }
                    match self.substitute_value(&xs[i]) {
                        Err(e) => {
                            proof {
                                lemma_elements_error_prefix(m, strict, items, i as int);
                            }
                            return Err(e);
                        },
                        Ok(x) => {
                            let ghost before = out@.map_values(|x: JsonValue| x@);
                            out.push(x);
                            proof {
                                assert(out@.map_values(|x: JsonValue| x@) =~= before.push(x@));
                            }
                        },
                    }
                    i = i + 1;
                }
                proof {
                    assert(items.subrange(0, items.len() as int) =~= items);
                }
                let res = JsonValue::Array(out);
                proof {
                    lemma_array_view(&out);
                }
                Ok(res)
            },
            JsonValue::String(t) => self.substitute_node(t.as_str()),
            _ => Ok(value.deep_clone()),
        }
    }
}

/// A failure on a member makes the whole object fail with it.
proof fn lemma_members_error_prefix(m: Entries, strict: bool, e: Entries, i: int)
    requires
        0 <= i < e.len(),
        subst_members_spec(m, strict, e.subrange(0, i)) is Ok,
        subst_member_spec(m, strict, e[i].0, e[i].1) is Err,
    ensures
        subst_members_spec(m, strict, e) == Err::<Entries, SubstFailure>(
            subst_member_spec(m, strict, e[i].0, e[i].1)->Err_0,
        ),
    decreases e.len() - i,
{
    let n = e.len();
    if i == n - 1 {
        assert(e.drop_last() =~= e.subrange(0, i));
    } else {
        let d = e.drop_last();
        assert(d.subrange(0, i) =~= e.subrange(0, i));
        assert(d[i] == e[i]);
        lemma_members_error_prefix(m, strict, d, i);
    }
}

/// A failure on an element makes the whole array fail with it.
proof fn lemma_elements_error_prefix(m: Entries, strict: bool, a: Seq<Json>, i: int)
    requires
        0 <= i < a.len(),
        subst_elements_spec(m, strict, a.subrange(0, i)) is Ok,
        subst_value_spec(m, strict, a[i]) is Err,
    ensures
        subst_elements_spec(m, strict, a) == Err::<Seq<Json>, SubstFailure>(
            subst_value_spec(m, strict, a[i])->Err_0,
        ),
    decreases a.len() - i,
{
    let n = a.len();
    if i == n - 1 {
        assert(a.drop_last() =~= a.subrange(0, i));
    } else {
        let d = a.drop_last();
        assert(d.subrange(0, i) =~= a.subrange(0, i));
        assert(d[i] == a[i]);
        lemma_elements_error_prefix(m, strict, d, i);
    }
}

/// The mapping with environment entries added as strings; the mapping's own
/// members take precedence.
pub fn merge_env(mapping: &JsonMap, env: &Vec<(String, String)>) -> (merged: JsonMap)
    requires
        keys_sorted(mapping@),
    ensures
        merged@ == env_merged(mapping@, string_pairs(env@)),
        keys_sorted(merged@),
{
    let ghost ev = string_pairs(env@);
    let mut merged = JsonMap::new();
    let mut i: usize = 0;
    while i < env.len()
        invariant
            i <= env.len(),
            ev == string_pairs(env@),
            merged@ == put_env(Seq::empty(), ev.subrange(0, i as int)),
            keys_sorted(merged@),
        decreases env.len() - i,
    {
        proof {
            let next = ev.subrange(0, i + 1);
            assert(next.drop_last() =~= ev.subrange(0, i as int));
            assert(next.last() == (env@[i as int].0@, env@[i as int].1@));
        }
        merged.insert(env[i].0.clone(), JsonValue::String(env[i].1.clone()));
        i = i + 1;
    }
    proof {
        assert(ev.subrange(0, ev.len() as int) =~= ev);
    }
    let ghost base = merged@;
    let mut j: usize = 0;
    while j < mapping.entries.len()
        invariant
            j <= mapping.entries.len(),
            base == put_env(Seq::empty(), ev),
            merged@ == put_all(base, mapping@.subrange(0, j as int)),
            keys_sorted(merged@),
        decreases mapping.entries.len() - j,
    {
        proof {
            let next = mapping@.subrange(0, j + 1);
            assert(next.drop_last() =~= mapping@.subrange(0, j as int));
            assert(next.last() == (mapping.entries@[j as int].0@, mapping.entries@[j as int].1@));
        }
        merged.insert(mapping.entries[j].0.clone(), mapping.entries[j].1.deep_clone());
        j = j + 1;
    }
    proof {
        assert(mapping@.subrange(0, mapping@.len() as int) =~= mapping@);
    }
    merged
}

/// Substitutes placeholders in `value` with `mapping`.
pub fn substitute(value: &mut JsonValue, mapping: &JsonMap, strict: bool) -> (r: Result<
    (),
    SubstituteError,
>)
    requires
        keys_sorted(mapping@),
    ensures
        !pattern_compiles(PLACEHOLDER_PATTERN@) ==> (r matches Err(e) && e@ == SubstFailure::Regex
            && final(value)@ == old(value)@),
        pattern_compiles(PLACEHOLDER_PATTERN@) ==> match subst_value_spec(
            mapping@,
            strict,
            old(value)@,
        ) {
            Ok(v) => r is Ok && final(value)@ == v,
            Err(f) => r matches Err(e) && e@ == f && final(value)@ == old(value)@,
        },
{
    substitute_with_env(value, mapping, None, strict)
}

/// Substitutes placeholders with `mapping` and, when given, environment
/// entries: environment values are strings, and the mapping's own keys take
/// precedence over them.
pub fn substitute_with_env(
    value: &mut JsonValue,
    mapping: &JsonMap,
    env_mapping: Option<&Vec<(String, String)>>,
    strict: bool,
) -> (r: Result<(), SubstituteError>)
    requires
        keys_sorted(mapping@),
    ensures
        !pattern_compiles(PLACEHOLDER_PATTERN@) ==> (r matches Err(e) && e@ == SubstFailure::Regex
            && final(value)@ == old(value)@),
        pattern_compiles(PLACEHOLDER_PATTERN@) ==> match subst_value_spec(
            match env_mapping {
                Some(env) => env_merged(mapping@, string_pairs(env@)),
                None => mapping@,
            },
            strict,
            old(value)@,
        ) {
            Ok(v) => r is Ok && final(value)@ == v,
            Err(f) => r matches Err(e) && e@ == f && final(value)@ == old(value)@,
        },
{
    match env_mapping {
        Some(env) => {
            let merged = merge_env(mapping, env);
            let builder = SubstituteBuilder::new(&merged);
            match builder {
                Ok(b) => b.strict(strict).apply(value),
                Err(e) => Err(e),
            }
        },
        None => {
            let builder = SubstituteBuilder::new(mapping);
            match builder {
                Ok(b) => b.strict(strict).apply(value),
                Err(e) => Err(e),
            }
        },
    }
}

} // verus!
