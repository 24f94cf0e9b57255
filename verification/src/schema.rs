//! JSON Schemas of the configuration a palette renders, and validation of
//! rendered values against them with the `jsonschema` crate.

use vstd::prelude::*;
use crate::config::{AgentModel, ConfigError, ModelConfigs, Palette, PaletteModel, configs_wf};
use crate::json::{Json, Entries, JsonMap, JsonValue, json_text, json_text_of, lemma_object_view};
use crate::keyed::{entries_get, entries_put, keys_sorted};
use crate::strings::{concat3, to_owned_string};

verus! {

/// Settings of a schema generation.
pub struct SchemaGenerateOptions {
    pub palette: Option<String>,
    pub out_dir: String,
    pub config_dir: String,
}

/// A violation found by schema validation.
#[derive(Debug, Clone)]
pub struct SchemaFinding {
    /// JSON Pointer to the invalid value.
    pub instance_path: String,
    /// JSON Pointer to the schema keyword that failed.
    pub schema_path: String,
    /// Description of the violation.
    pub message: String,
}

/// Why a schema could not be generated or used.
#[derive(Debug)]
pub enum SchemaError {
    MissingPaletteName,
    MissingPalette { name: String },
    Config(ConfigError),
    Write { path: String, source: std::io::Error },
    Serialize { source: serde_json::Error },
    InvalidSchema { message: String },
}

/// The object with the members put in order.
pub open spec fn put_pairs(pairs: Seq<(Seq<char>, Json)>) -> Entries
    decreases pairs.len(),
{
    if pairs.len() == 0 {
        Seq::empty()
    } else {
        entries_put(put_pairs(pairs.drop_last()), pairs.last().0, pairs.last().1)
    }
}

/// `{"type": "string"}`.
pub open spec fn string_schema() -> Json {
    Json::Object(put_pairs(seq![("type"@, Json::Str("string"@))]))
}

/// The schema of an agent: an object whose `model`, `variant`,
/// `reasoningEffort` and `textVerbosity` are strings, other members allowed.
pub open spec fn agent_schema() -> Json {
    Json::Object(
        put_pairs(
            seq![
                ("type"@, Json::Str("object"@)),
                ("properties"@, Json::Object(put_pairs(seq![
                    ("model"@, string_schema()),
                    ("variant"@, string_schema()),
                    ("reasoningEffort"@, string_schema()),
                    ("textVerbosity"@, string_schema()),
                ]))),
                ("additionalProperties"@, Json::Bool(true)),
            ],
        ),
    )
}

/// The agent schema under each agent name.
pub open spec fn agent_props(agents: Seq<(Seq<char>, AgentModel)>) -> Entries
    decreases agents.len(),
{
    if agents.len() == 0 {
        Seq::empty()
    } else {
        entries_put(agent_props(agents.drop_last()), agents.last().0, agent_schema())
    }
}

/// The schema of the configuration a palette renders.
pub open spec fn schema_spec(p: PaletteModel) -> Json {
    Json::Object(
        put_pairs(
            seq![
                ("$schema"@, Json::Str("https://json-schema.org/draft/2020-12/schema"@)),
                ("title"@, Json::Str("opencode.json"@)),
                ("type"@, Json::Str("object"@)),
                ("properties"@, Json::Object(put_pairs(seq![
                    ("agent"@, Json::Object(put_pairs(seq![
                        ("type"@, Json::Str("object"@)),
                        ("properties"@, Json::Object(agent_props(p.agents))),
                        ("additionalProperties"@, Json::Bool(true)),
                    ]))),
                ]))),
                ("additionalProperties"@, Json::Bool(true)),
            ],
        ),
    )
}

/// The model of named values.
pub open spec fn pairs_view(v: Seq<(String, JsonValue)>) -> Seq<(Seq<char>, Json)> {
    Seq::new(v.len(), |i: int| (v[i].0@, v[i].1@))
}

/// The object with the given members put in order.
pub fn object_of(pairs: Vec<(String, JsonValue)>) -> (r: JsonValue)
    ensures
        r@ == Json::Object(put_pairs(pairs_view(pairs@))),
{
    let ghost pv = pairs_view(pairs@);
    let mut m = JsonMap::new();
    let mut rest = pairs;
    let mut taken: Vec<(String, JsonValue)> = Vec::new();
    let mut i: usize = 0;
    let n = rest.len();
    proof {
        assert(pv.subrange(0, 0) =~= Seq::<(Seq<char>, Json)>::empty());
    }
    while i < n
        invariant
            i <= n,
            n == pv.len(),
            rest@.len() == n,
            pairs_view(rest@) == pv,
            m@ == put_pairs(pv.subrange(0, i as int)),
            keys_sorted(m@),
        decreases n - i,
    {
        proof {
            let next = pv.subrange(0, i + 1);
            assert(next.drop_last() =~= pv.subrange(0, i as int));
            assert(next.last() == pv[i as int]);
            assert(pv[i as int] == (rest@[i as int].0@, rest@[i as int].1@));
        }
        m.insert(rest[i].0.clone(), rest[i].1.deep_clone());
        i = i + 1;
    }
    proof {
        assert(pv.subrange(0, n as int) =~= pv);
        lemma_object_view(&m);
    }
    JsonValue::Object(m)
}

fn text(s: &str) -> (r: JsonValue)
    ensures
        r@ == Json::Str(s@),
{
    JsonValue::String(to_owned_string(s))
}

fn push_pair(v: &mut Vec<(String, JsonValue)>, k: &str, x: JsonValue)
    ensures
        pairs_view(final(v)@) == pairs_view(old(v)@).push((k@, x@)),
{
    v.push((to_owned_string(k), x));
    proof {
        assert(pairs_view(final(v)@) =~= pairs_view(old(v)@).push((k@, x@)));
    }
}

fn string_schema_value() -> (r: JsonValue)
    ensures
        r@ == string_schema(),
{
    let mut v: Vec<(String, JsonValue)> = Vec::new();
    proof {
        assert(pairs_view(v@) =~= Seq::<(Seq<char>, Json)>::empty());
    }
    push_pair(&mut v, "type", text("string"));
    proof {
        assert(pairs_view(v@) =~= seq![("type"@, Json::Str("string"@))]);
    }
    object_of(v)
}

fn agent_schema_value() -> (r: JsonValue)
    ensures
        r@ == agent_schema(),
{
    let mut props: Vec<(String, JsonValue)> = Vec::new();
    proof {
        assert(pairs_view(props@) =~= Seq::<(Seq<char>, Json)>::empty());
    }
    push_pair(&mut props, "model", string_schema_value());
    push_pair(&mut props, "variant", string_schema_value());
    push_pair(&mut props, "reasoningEffort", string_schema_value());
    push_pair(&mut props, "textVerbosity", string_schema_value());
    proof {
        assert(pairs_view(props@) =~= seq![
            ("model"@, string_schema()),
            ("variant"@, string_schema()),
            ("reasoningEffort"@, string_schema()),
            ("textVerbosity"@, string_schema()),
        ]);
    }
    let properties = object_of(props);
    let mut v: Vec<(String, JsonValue)> = Vec::new();
    proof {
        assert(pairs_view(v@) =~= Seq::<(Seq<char>, Json)>::empty());
    }
    push_pair(&mut v, "type", text("object"));
    push_pair(&mut v, "properties", properties);
    push_pair(&mut v, "additionalProperties", JsonValue::Bool(true));
    proof {
        assert(pairs_view(v@) =~= seq![
            ("type"@, Json::Str("object"@)),
            ("properties"@, properties@),
            ("additionalProperties"@, Json::Bool(true)),
        ]);
    }
    object_of(v)
}

/// The schema of the configuration `palette` renders: each of its agents
/// is described under `agent`.
pub fn build_schema(palette: &Palette) -> (r: JsonValue)
    ensures
        r@ == schema_spec(palette@),
{
    let mut props = JsonMap::new();
    let mut i: usize = 0;
    proof {
        assert(palette@.agents.subrange(0, 0) =~= Seq::<(Seq<char>, AgentModel)>::empty());
    }
    while i < palette.agents.entries.len()
        invariant
            i <= palette.agents.entries.len(),
            props@ == agent_props(palette@.agents.subrange(0, i as int)),
            keys_sorted(props@),
        decreases palette.agents.entries.len() - i,
    {
        proof {
            let next = palette@.agents.subrange(0, i + 1);
            assert(next.drop_last() =~= palette@.agents.subrange(0, i as int));
        }
        props.insert(palette.agents.entries[i].0.clone(), agent_schema_value());
        i = i + 1;
    }
    proof {
        assert(palette@.agents.subrange(0, palette@.agents.len() as int) =~= palette@.agents);
        lemma_object_view(&props);
    }
    let props_v = JsonValue::Object(props);
    let mut agent: Vec<(String, JsonValue)> = Vec::new();
    proof {
        assert(pairs_view(agent@) =~= Seq::<(Seq<char>, Json)>::empty());
    }
    push_pair(&mut agent, "type", text("object"));
    push_pair(&mut agent, "properties", props_v);
    push_pair(&mut agent, "additionalProperties", JsonValue::Bool(true));
    proof {
        assert(pairs_view(agent@) =~= seq![
            ("type"@, Json::Str("object"@)),
            ("properties"@, Json::Object(agent_props(palette@.agents))),
            ("additionalProperties"@, Json::Bool(true)),
        ]);
    }
    let agent_v = object_of(agent);
    let mut top_props: Vec<(String, JsonValue)> = Vec::new();
    proof {
        assert(pairs_view(top_props@) =~= Seq::<(Seq<char>, Json)>::empty());
    }
    let ghost av = agent_v@;
    push_pair(&mut top_props, "agent", agent_v);
    proof {
        assert(pairs_view(top_props@) =~= seq![("agent"@, av)]);
    }
    let top_props_v = object_of(top_props);
    let mut top: Vec<(String, JsonValue)> = Vec::new();
    proof {
        assert(pairs_view(top@) =~= Seq::<(Seq<char>, Json)>::empty());
    }
    push_pair(&mut top, "$schema", text("https://json-schema.org/draft/2020-12/schema"));
    push_pair(&mut top, "title", text("opencode.json"));
    push_pair(&mut top, "type", text("object"));
    let ghost tpv = top_props_v@;
    push_pair(&mut top, "properties", top_props_v);
    push_pair(&mut top, "additionalProperties", JsonValue::Bool(true));
    proof {
        assert(pairs_view(top@) =~= seq![
            ("$schema"@, Json::Str("https://json-schema.org/draft/2020-12/schema"@)),
            ("title"@, Json::Str("opencode.json"@)),
            ("type"@, Json::Str("object"@)),
            ("properties"@, tpv),
            ("additionalProperties"@, Json::Bool(true)),
        ]);
    }
    let r = object_of(top);
    proof {
        assert(r@ =~= schema_spec(palette@));
    }
    r
}

/// What `jsonschema` reports when the instance text is validated against
/// the schema text: each violation's instance path, schema path and
/// message, or why the schema was refused.
pub uninterp spec fn schema_check(schema_text: Seq<char>, instance_text: Seq<char>) -> Result<Seq<(Seq<char>, Seq<char>, Seq<char>)>, Seq<char>>;

/// The model of a schema check's result.
pub open spec fn check_view(r: Result<Vec<(String, String, String)>, String>) -> Result<Seq<(Seq<char>, Seq<char>, Seq<char>)>, Seq<char>> {
    match r {
        Ok(v) => Ok(Seq::new(v@.len(), |i: int| (v@[i].0@, v@[i].1@, v@[i].2@))),
        Err(m) => Err(m@),
    }
}

/// Parses both texts with `serde_json::from_str`, compiles the schema with
/// `jsonschema::validator_for` and lists the errors of `iter_errors` on the
/// instance (their instance path, schema path and message), or gives the
/// text of the error that stopped it. Claimed: the result is a function of
/// the two texts.
#[verifier::external_body]
fn jsonschema_check(schema_text: &str, instance_text: &str) -> (r: Result<Vec<(String, String, String)>, String>)
    ensures
        check_view(r) == schema_check(schema_text@, instance_text@),
{
    let schema: serde_json::Value = serde_json::from_str(schema_text).map_err(|e| e.to_string())?;
    let instance: serde_json::Value = serde_json::from_str(instance_text).map_err(|e| e.to_string())?;
    let validator = jsonschema::validator_for(&schema).map_err(|e| e.to_string())?;
    Ok(validator.iter_errors(&instance).map(|e| {
        (e.instance_path.to_string(), e.schema_path.to_string(), e.to_string())
    }).collect())
}

/// The model of schema findings.
pub open spec fn findings_view(v: Seq<SchemaFinding>) -> Seq<(Seq<char>, Seq<char>, Seq<char>)> {
    Seq::new(v.len(), |i: int| (v[i].instance_path@, v[i].schema_path@, v[i].message@))
}

/// Validates `instance` against `schema`: one finding per violation, or
/// `InvalidSchema` when the schema cannot be compiled.
pub fn validate_against_schema(schema: &JsonValue, instance: &JsonValue) -> (r: Result<Vec<SchemaFinding>, SchemaError>)
    ensures
        match schema_check(json_text(schema@), json_text(instance@)) {
            Ok(fs) => r matches Ok(v) && findings_view(v@) == fs,
            Err(m) => r matches Err(SchemaError::InvalidSchema { message }) && message@ == m,
        },
{
    let schema_text = json_text_of(schema);
    let instance_text = json_text_of(instance);
    match jsonschema_check(schema_text.as_str(), instance_text.as_str()) {
        Err(message) => Err(SchemaError::InvalidSchema { message }),
        Ok(found) => {
            let mut out: Vec<SchemaFinding> = Vec::new();
            let mut i: usize = 0;
            while i < found.len()
                invariant
                    i <= found@.len(),
                    out@.len() == i,
                    forall|j: int| 0 <= j < i ==> {
                        &&& (#[trigger] out@[j]).instance_path@ == found@[j].0@
                        &&& out@[j].schema_path@ == found@[j].1@
                        &&& out@[j].message@ == found@[j].2@
                    },
                decreases found.len() - i,
            {
                out.push(
                    SchemaFinding {
                        instance_path: found[i].0.clone(),
                        schema_path: found[i].1.clone(),
                        message: found[i].2.clone(),
                    },
                );
                i = i + 1;
            }
            proof {
                assert(findings_view(out@) =~= check_view(Ok::<Vec<(String, String, String)>, String>(found))->Ok_0);
            }
            Ok(out)
        },
    }
}

/// The schema file name of a palette.
pub open spec fn schema_file_name(palette: Seq<char>) -> Seq<char> {
    "opencode."@ + palette + ".schema.json"@
}

/// The schema to generate for the named palette, and its file name.
pub fn schema_for_palette(palette: Option<&String>, configs: &ModelConfigs) -> (r: Result<(String, JsonValue), SchemaError>)
    requires
        configs_wf(configs@),
    ensures
        palette is None ==> r matches Err(SchemaError::MissingPaletteName),
        palette matches Some(n) ==> match entries_get(configs@, n@) {
            None => r matches Err(SchemaError::MissingPalette { name }) && name@ == n@,
            Some(p) => r matches Ok((f, s)) && f@ == schema_file_name(n@) && s@ == schema_spec(p),
        },
{
    let name = match palette {
        Some(n) => n,
        None => {
            return Err(SchemaError::MissingPaletteName);
        },
    };
    match configs.palette(name.as_str()) {
        None => Err(SchemaError::MissingPalette { name: name.clone() }),
        Some(p) => {
            let schema = build_schema(p);
            Ok((concat3("opencode.", name.as_str(), ".schema.json"), schema))
        },
    }
}

} // verus!
