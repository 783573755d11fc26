//! Code intelligence for `bazelrc` configuration files.
//!
//! The crate analyses the `rc`-style configuration files of the Bazel build
//! tool: it tokenizes them with exact source positions, groups the tokens
//! into line records, combines flags with the values they consume, resolves
//! flag names against a versioned flag database, and derives diagnostics.

pub mod bazel_flags;
pub mod bazel_flags_data;
pub mod bazel_version;
pub mod diagnostic;
pub mod file_utils;
pub mod formatting;
pub mod line_index;
pub mod parser;
pub mod semantic_token;
pub mod text;
pub mod tokenizer;
