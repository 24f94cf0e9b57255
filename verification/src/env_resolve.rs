//! Environment placeholders: mapping entries whose value is `env:<VAR>` are
//! resolved from a snapshot of the environment, under an allow policy, and
//! masking of values for logs.

use vstd::prelude::*;
use crate::strings::{chars_of, seq_starts_with, str_eq, string_from_chars, strip_prefix};
use crate::substitute::{env_last, string_pairs};

verus! {

/// Why environment resolution failed.
#[derive(Debug)]
pub enum ResolveError {
    MissingEnvVar { var: String },
}

/// Which environment variables may be read.
#[derive(Debug, Clone, PartialEq, Eq)]
pub enum Allow {
    /// Every variable.
    All,
    /// No variable.
    Nothing,
    /// Only the listed variables.
    List(Vec<String>),
}

/// Resolves `env:` mapping entries under a policy.
pub struct EnvResolver {
    pub allow: Allow,
    pub strict: bool,
}

/// The prefix of environment references in mapping values.
pub open spec fn env_prefix() -> Seq<char> {
    "env:"@
}

/// The policy lets variable `var` be read.
pub open spec fn allowed(allow: Allow, var: Seq<char>) -> bool {
    match allow {
        Allow::All => true,
        Allow::Nothing => false,
        Allow::List(names) => exists|i: int| 0 <= i < names@.len() && names@[i]@ == var,
    }
}

/// The resolved entries, in mapping order: each `env:<VAR>` value that the
/// policy allows and the environment defines gives its key the variable's
/// value; in strict mode an allowed but undefined variable is an error
/// naming it.
pub open spec fn resolve_spec(
    allow: Allow,
    strict: bool,
    m: Seq<(Seq<char>, Seq<char>)>,
    env: Seq<(Seq<char>, Seq<char>)>,
) -> Result<Seq<(Seq<char>, Seq<char>)>, Seq<char>>
    decreases m.len(),
{
    if m.len() == 0 {
        Ok(Seq::empty())
    } else {
        match resolve_spec(allow, strict, m.drop_last(), env) {
            Err(v) => Err(v),
            Ok(r) => {
                let (k, value) = m.last();
                if !seq_starts_with(value, env_prefix()) {
                    Ok(r)
                } else {
                    let var = value.subrange(env_prefix().len() as int, value.len() as int);
                    if !allowed(allow, var) {
                        Ok(r)
                    } else {
                        match env_last(env, var) {
                            Some(x) => Ok(r.push((k, x))),
                            None => if strict {
                                Err(var)
                            } else {
                                Ok(r)
                            },
                        }
                    }
                }
            },
        }
    }
}

#[verifier::loop_isolation(false)]
fn is_allowed(allow: &Allow, var: &str) -> (r: bool)
    ensures
        r == allowed(*allow, var@),
{
    match allow {
        Allow::All => true,
        Allow::Nothing => false,
        Allow::List(names) => {
            let mut i: usize = 0;
            while i < names.len()
                invariant
                    i <= names@.len(),
                    forall|j: int| 0 <= j < i ==> names@[j]@ != var@,
                decreases names.len() - i,
            {
                if str_eq(names[i].as_str(), var) {
                    proof {
                        assert(names@[i as int]@ == var@);
                        assert(exists|j: int| 0 <= j < names@.len() && names@[j]@ == var@);
                    }
                    return true;
                }
                i = i + 1;
            }
            false
        },
    }
}

fn lookup(env: &Vec<(String, String)>, var: &str) -> (r: Option<String>)
    ensures
        r matches Some(x) ==> env_last(string_pairs(env@), var@) == Some(x@),
        r is None ==> env_last(string_pairs(env@), var@) is None,
{
    let ghost ev = string_pairs(env@);
    let mut i: usize = env.len();
    proof {
        assert(ev.subrange(0, i as int) =~= ev);
    }
    while i > 0
        invariant
            i <= env@.len(),
            ev == string_pairs(env@),
            env_last(ev, var@) == env_last(ev.subrange(0, i as int), var@),
        decreases i,
    {
        let ghost pre = ev.subrange(0, i as int);
        assert(pre.last() == (env@[i - 1].0@, env@[i - 1].1@));
        if str_eq(env[i - 1].0.as_str(), var) {
            return Some(env[i - 1].1.clone());
        }
        proof {
            assert(pre.drop_last() =~= ev.subrange(0, i - 1));
        }
        i = i - 1;
    }
    proof {
        assert(ev.subrange(0, 0).len() == 0);
    }
    None
}

impl EnvResolver {
    /// A resolver with a policy and strictness.
    pub fn new(allow: Allow, strict: bool) -> (r: Self)
        ensures
            r.allow == allow && r.strict == strict,
    {
        EnvResolver { allow, strict }
    }

    /// Resolves the `env:<VAR>` entries of `mappings` from the environment
    /// snapshot `env` (name and value pairs).
    pub fn resolve(&self, mappings: &Vec<(String, String)>, env: &Vec<(String, String)>) -> (r: Result<
        Vec<(String, String)>,
        ResolveError,
    >)
        ensures
            match resolve_spec(self.allow, self.strict, string_pairs(mappings@), string_pairs(env@)) {
                Ok(x) => r matches Ok(v) && string_pairs(v@) == x,
                Err(var) => r matches Err(ResolveError::MissingEnvVar { var: got }) && got@ == var,
            },
    {
        let ghost mv = string_pairs(mappings@);
        let mut out: Vec<(String, String)> = Vec::new();
        let mut i: usize = 0;
        proof {
            assert(mv.subrange(0, 0) =~= Seq::<(Seq<char>, Seq<char>)>::empty());
            assert(string_pairs(out@) =~= Seq::<(Seq<char>, Seq<char>)>::empty());
        }
        while i < mappings.len()
            invariant
                i <= mappings.len(),
                mv == string_pairs(mappings@),
                resolve_spec(self.allow, self.strict, mv.subrange(0, i as int), string_pairs(env@)) == Ok::<
                    Seq<(Seq<char>, Seq<char>)>,
                    Seq<char>,
                >(string_pairs(out@)),
            decreases mappings.len() - i,
        {
            let key = &mappings[i].0;
            let value = &mappings[i].1;
            proof {
                let next = mv.subrange(0, i + 1);
                assert(next.drop_last() =~= mv.subrange(0, i as int));
                assert(next.last() == (key@, value@));
                reveal_strlit("env:");
            }
            match strip_prefix(value.as_str(), "env:") {
                None => {},
                Some(var) => {
                    if is_allowed(&self.allow, var.as_str()) {
                        match lookup(env, var.as_str()) {
                            Some(x) => {
                                let ghost before = string_pairs(out@);
                                out.push((key.clone(), x));
                                proof {
                                    assert(string_pairs(out@) =~= before.push((key@, x@)));
                                }
                            },
                            None => {
                                if self.strict {
                                    proof {
                                        lemma_resolve_error(self.allow, self.strict, mv, string_pairs(env@), i as int);
                                    }
                                    return Err(ResolveError::MissingEnvVar { var });
                                }
                            },
                        }
                    }
                },
            }
            i = i + 1;
        }
        proof {
            assert(mv.subrange(0, mv.len() as int) =~= mv);
        }
        Ok(out)
    }
}

proof fn lemma_resolve_error(
    allow: Allow,
    strict: bool,
    m: Seq<(Seq<char>, Seq<char>)>,
    env: Seq<(Seq<char>, Seq<char>)>,
    i: int,
)
    requires
        0 <= i < m.len(),
        resolve_spec(allow, strict, m.subrange(0, i), env) is Ok,
        resolve_spec(allow, strict, m.subrange(0, i + 1), env) is Err,
    ensures
        resolve_spec(allow, strict, m, env) == resolve_spec(allow, strict, m.subrange(0, i + 1), env),
    decreases m.len() - i,
{
    if i + 1 == m.len() {
        assert(m.subrange(0, i + 1) =~= m);
    } else {
        let d = m.drop_last();
        assert(d.subrange(0, i) =~= m.subrange(0, i));
        assert(d.subrange(0, i + 1) =~= m.subrange(0, i + 1));
        lemma_resolve_error(allow, strict, d, env, i);
    }
}

/// `n` asterisks.
pub open spec fn stars(n: nat) -> Seq<char> {
    Seq::new(n, |_i: int| '*')
}

/// The masked form of a value: empty stays empty, one or two characters
/// become asterisks, longer values keep their first and last character with
/// asterisks between.
pub open spec fn masked_spec(s: Seq<char>) -> Seq<char> {
    if s.len() <= 2 {
        stars(s.len())
    } else {
        seq![s[0]] + stars((s.len() - 2) as nat) + seq![s.last()]
    }
}

/// Masks the middle characters of `value` with `*`.
pub fn format_masked(value: &str) -> (r: String)
    ensures
        r@ == masked_spec(value@),
{
    let chars = chars_of(value);
    let n = chars.len();
    let mut out: Vec<char> = Vec::new();
    if n <= 2 {
        let mut k: usize = 0;
        while k < n
            invariant
                k <= n,
                out@ == stars(k as nat),
            decreases n - k,
        {
            out.push('*');
            proof {
                assert(out@ =~= stars((k + 1) as nat));
            }
            k = k + 1;
        }
        return string_from_chars(out.as_slice());
    }
    out.push(chars[0]);
    let mut k: usize = 0;
    while k < n - 2
        invariant
            n >= 3,
            k <= n - 2,
            out@ == seq![chars@[0]] + stars(k as nat),
        decreases n - 2 - k,
    {
        out.push('*');
        proof {
            assert(out@ =~= seq![chars@[0]] + stars((k + 1) as nat));
        }
        k = k + 1;
    }
    out.push(chars[n - 1]);
    proof {
        assert(out@ =~= masked_spec(value@));
    }
    string_from_chars(out.as_slice())
}

} // verus!
