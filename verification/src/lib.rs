//! Minification support for sailfish templates: the logic that finds
//! `<% include!("..."); %>` tokens, rewrites them, reads the
//! `#[template(path = "...")]` and `#[min_with(...)]` attributes, and decides
//! how a template is minified.
#![allow(unused_imports)]

pub mod text;
pub mod engine;
pub mod includes;
pub mod splice;
pub mod rewrite;
pub mod options;
pub mod native;
pub mod template_path;
pub mod paths;
pub mod syntax;
pub mod attributes;
pub mod cache;

pub use includes::{
    extract_include_ranges, extract_includes, extract_includes_manual,
    extract_includes_manual_ranges, extract_includes_spans, get_include_regex,
    INCLUDE_REPLACE_TOKEN_REGEX,
};
pub use splice::splice_include_replacements;
pub use rewrite::{include_token_for, rewrite_include_tokens};
pub use options::{Minifier, MinifyOptions, MinWithArg, minifier_command, stderr_is_fatal};
pub use native::{native_minify_cfg, minify_native, NativeMinifyCfg};
pub use template_path::{extract_template_path_str, extract_template_path_str_fallback};
pub use paths::{modify_template_path, component_output_path, include_reference};
pub use attributes::{
    extract_template_path, get_minify_options_from_token_stream, parse_command_arg,
    replace_path_attribute,
};
pub use cache::{PathCache, PathSet, CacheDecision, template_cache_decision, visit_template};
