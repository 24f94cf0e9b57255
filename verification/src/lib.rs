//! Generation of `opencode.json` configuration files from model palettes and
//! JSON/YAML templates with `{{placeholder}}` substitution.
//!
//! The library holds the verified logic: the JSON value model, placeholder
//! substitution, template merging, fragment decomposition and composition,
//! palette import planning, run-option precedence and the validation engine.
//! File-system access, parsing of YAML/JSON text and terminal prompts are done
//! by the program around it, which hands plain values to these functions.

pub mod strings;
pub mod keyed;
pub mod json;
pub mod pattern;
pub mod substitute;
pub mod config;
pub mod template;
pub mod mapping;
pub mod decompose;
pub mod options;
pub mod env_resolve;
pub mod palette_io;
pub mod compose;
pub mod render;
pub mod create;
pub mod diff;
pub mod schema;
pub mod validate;
pub mod strict_findings;
pub mod roundtrip;
pub mod wizard;
pub mod cli;
