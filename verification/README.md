# opencode-config

Generates `opencode.json` configuration files from model palettes
(`model-configs.yaml`) and JSON/YAML templates with `{{placeholder}}`
substitution, and validates, decomposes and composes such templates.

## Layout

- `src/` — the library, verified with Verus: the JSON value model and deep
  merge, placeholder substitution and alias resolution, template names and
  sources, decomposition into fragments and composition back, palette import
  planning, run-option precedence, the validation engine and the wizard's
  decisions. Each public function states its result in its `ensures`
  clause; the laws that relate several functions are the `law_*` proof
  functions.
- `app/` — the `opencode-config` program: command-line parsing, file access,
  terminal prompts and serialization, handing plain values to the library.
- `tests/` — tests of the library on concrete values.

The library calls the `regex`, `similar` and `jsonschema` crates through
small trusted wrappers whose contracts are stated next to them (`pattern.rs`,
`diff.rs`, `schema.rs`).
