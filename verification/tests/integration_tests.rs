//! End-to-end scenarios of minifying templates and their components.
//!
//! Each template is minified with the native minifier; rendering is
//! emulated: `<%= key %>` is replaced by its value, and every
//! `<% include!("..."); %>` token is replaced by the compiled component it
//! names, found through the library's include extraction and splicing.

use sailfish_minify::{
    extract_include_ranges, get_minify_options_from_token_stream, minifier_command, minify_native,
    splice_include_replacements, stderr_is_fatal, Minifier, MinifyOptions,
};
use std::collections::HashMap;

fn minify(source: &str) -> String {
    String::from_utf8(minify_native(source.as_bytes())).unwrap()
}

/// Compiles `name`: minified (or not), with each include replaced by the
/// compiled component it names.
fn compile(name: &str, templates: &HashMap<String, String>, minified: bool) -> String {
    let source = &templates[name];
    let text = if minified { minify(source) } else { source.clone() };
    let includes = extract_include_ranges(&text);
    let replacements = includes
        .into_iter()
        .map(|(range, _, child)| (range, compile(&child, templates, minified)))
        .collect();
    splice_include_replacements(&text, replacements)
}

fn render(compiled: &str, vars: &[(&str, &str)]) -> String {
    let mut out = compiled.to_string();
    for (key, value) in vars {
        out = out.replace(&format!("<%= {} %>", key), value);
    }
    out
}

fn templates(entries: &[(&str, String)]) -> HashMap<String, String> {
    entries.iter().map(|(k, v)| (k.to_string(), v.clone())).collect()
}

fn simple_template() -> String {
    "\n<html>\n  <head>\n    <title>Simple</title>\n  </head>\n  <body>\n    <h1>Hello,   <%= name %>!</h1>\n    <p>\n      A   simple   page.\n    </p>\n  </body>\n</html>\n".to_string()
}

fn small_template() -> String {
    "<div>\n    <p>   Hi <%= name %>   </p>\n</div>\n".to_string()
}

#[test]
fn test_simple_template_renders_minified() {
    let t = templates(&[("simple.stpl", simple_template())]);
    let result = render(&compile("simple.stpl", &t, true), &[("name", "World")]);
    assert!(!result.starts_with('\n'));
    assert!(!result.contains("  "), "minified output should not contain double spaces");
}

#[test]
fn test_simple_template_contains_expected_content() {
    let t = templates(&[("simple.stpl", simple_template())]);
    let result = render(&compile("simple.stpl", &t, true), &[("name", "World")]);
    assert!(result.contains("World"));
}

#[test]
fn test_minified_output_smaller_than_unminified() {
    let t = templates(&[("small.stpl", small_template())]);
    let minified = render(&compile("small.stpl", &t, true), &[("name", "World")]);
    let raw = render(&compile("small.stpl", &t, false), &[("name", "World")]);
    assert!(minified.len() <= raw.len());
    assert!(minified.contains("World"));
}

#[test]
fn test_includes_are_minified_recursively() {
    let t = templates(&[
        (
            "with_includes.stpl",
            "<main>\n    <% include!(\"item_a.stpl\"); %>\n    <% include!(\"item_b.stpl\"); %>\n</main>\n".to_string(),
        ),
        ("item_a.stpl", "<p>a</p>\n".to_string()),
        ("item_b.stpl", "<p>b</p>\n".to_string()),
    ]);
    let result = compile("with_includes.stpl", &t, true);
    assert!(!result.contains("  "), "child includes should have no extra whitespace");
    assert!(result.contains("<main>"));
    assert!(result.contains("<p>a</p>"));
    assert!(result.contains("<p>b</p>"));
}

#[test]
fn test_deeply_nested_includes() {
    let mut entries = vec![("nest_0.stpl".to_string(), "<div>\n    deepest\n</div>\n".to_string())];
    for i in 1..10 {
        entries.push((
            format!("nest_{}.stpl", i),
            format!(
                "<section>\n    <h2>Level {}</h2>\n    <% include!(\"nest_{}.stpl\"); %>\n</section>\n",
                i,
                i - 1
            ),
        ));
    }
    let t: HashMap<String, String> = entries.into_iter().collect();
    let result = compile("nest_9.stpl", &t, true);
    assert!(result.contains("deepest"), "leaf of the 10-level include chain should render");
    assert!(result.contains("Level 9"));
}

#[test]
fn test_many_parallel_includes() {
    let mut main = String::from("<main>\n");
    let mut entries = Vec::new();
    for i in 0..50 {
        main.push_str(&format!("    <% include!(\"sibling_{:02}.stpl\"); %>\n", i));
        entries.push((format!("sibling_{:02}.stpl", i), format!("<div>\n    Sibling {:02}\n</div>\n", i)));
    }
    main.push_str("</main>\n");
    entries.push(("many_includes.stpl".to_string(), main));
    let t: HashMap<String, String> = entries.into_iter().collect();
    let result = compile("many_includes.stpl", &t, true);
    for i in 0..50 {
        assert!(result.contains(&format!("Sibling {:02}", i)));
    }
    assert!(!result.contains("  "));
}

#[test]
fn test_repeated_component_included_many_times() {
    let mut main = String::from("<ul>\n");
    for _ in 0..50 {
        main.push_str("    <% include!(\"component.stpl\"); %>\n");
    }
    main.push_str("</ul>\n");
    let t = templates(&[
        ("repeated_component.stpl", main),
        ("component.stpl", "<li class=\"shared-component\">\n    item\n</li>\n".to_string()),
    ]);
    let result = compile("repeated_component.stpl", &t, true);
    assert_eq!(result.matches("shared-component").count(), 50);
    assert!(!result.contains("  "));
}

#[test]
fn test_empty_template() {
    let t = templates(&[("empty.stpl", String::new())]);
    let result = compile("empty.stpl", &t, true);
    assert!(result.trim().is_empty(), "empty template should not crash and render empty output");
}

#[test]
fn test_unicode_content_preserved() {
    let source = "<html>\n  <body>\n    <p>こんにちは</p>\n    <p>你好，世界</p>\n    <p dir=\"rtl\">مرحباً بالعالم</p>\n    <p dir=\"rtl\">שלום עולם</p>\n    <p>🚀   launch</p>\n    <p>∀x ∈ ℝ</p>\n    <pre>print('مرحبا')</pre>\n  </body>\n</html>\n";
    let t = templates(&[("unicode_heavy.stpl", source.to_string())]);
    let result = compile("unicode_heavy.stpl", &t, true);
    assert!(result.contains("こんにちは"));
    assert!(result.contains("你好，世界"));
    assert!(result.contains("مرحباً بالعالم"));
    assert!(result.contains("שלום עולם"));
    assert!(result.contains("🚀"));
    assert!(result.contains("∀x ∈ ℝ"));
}

#[test]
fn integration_tests_test_custom_minifier() {
    let tokens: proc_macro2::TokenStream =
        r#"#[min_with(Custom("html-minifier --collapse-whitespace"))] #[template(path = "test/simple.stpl")] struct CustomMinifiedTemplate { name: String }"#
            .parse()
            .unwrap();
    let mut options = MinifyOptions::default();
    get_minify_options_from_token_stream(tokens, &mut options).unwrap();
    let command = minifier_command(&options.minifier, "in.stpl", "out.stpl").unwrap();
    assert_eq!(command, vec!["html-minifier", "--collapse-whitespace", "in.stpl", "-o", "out.stpl"]);
    assert!(stderr_is_fatal(&options.minifier));
}

#[test]
fn test_different_minifier_options_per_template() {
    let a_tokens: proc_macro2::TokenStream =
        r#"#[min_with(Custom("html-minifier --collapse-whitespace"))] struct A { name: String }"#.parse().unwrap();
    let b_tokens: proc_macro2::TokenStream =
        r#"#[min_with(CustomUnchecked("html-minifier --remove-comments"))] struct B { name: String }"#.parse().unwrap();
    let mut a = MinifyOptions::default();
    let mut b = MinifyOptions::default();
    get_minify_options_from_token_stream(a_tokens, &mut a).unwrap();
    get_minify_options_from_token_stream(b_tokens, &mut b).unwrap();
    assert_eq!(a.minifier, Minifier::Custom("html-minifier --collapse-whitespace".to_string()));
    assert_eq!(b.minifier, Minifier::CustomUnchecked("html-minifier --remove-comments".to_string()));
    assert!(stderr_is_fatal(&a.minifier));
    assert!(!stderr_is_fatal(&b.minifier));
}

// ---------------------------------------------------------------------------
// Big whitespace-heavy template
// ---------------------------------------------------------------------------

fn big_whitespace_template() -> String {
    let mut s = String::from("<html>\n    <head>\n        <title><%= title %></title>\n    </head>\n    <body>\n");
    for i in 0..9000 {
        s.push_str(&format!(
            "        <section>\n            <h2>    Section Heading {}    </h2>\n            <p>\n                Body   text   of   section   {}.\n            </p>\n        </section>\n",
            i, i
        ));
    }
    s.push_str("        <footer>\n            UNIQUE_MARKER_FOOTER\n        </footer>\n    </body>\n</html>\n");
    s
}

fn whitespace_ratio(s: &str) -> f64 {
    let ws = s.chars().filter(|c| c.is_whitespace()).count();
    ws as f64 / s.len() as f64
}

#[test]
fn test_big_whitespace_template_is_large() {
    let t = templates(&[("big_whitespace.stpl", big_whitespace_template())]);
    let raw = render(&compile("big_whitespace.stpl", &t, false), &[("title", "Big")]);
    assert!(
        raw.len() > 1_000_000,
        "raw big template should be a very big file (>= 1MB), got {} bytes",
        raw.len()
    );
    assert!(whitespace_ratio(&raw) > 0.3, "fixture should contain a lot of whitespace");
}

#[test]
fn test_big_whitespace_template_minifies_aggressively() {
    let t = templates(&[("big_whitespace.stpl", big_whitespace_template())]);
    let raw = render(&compile("big_whitespace.stpl", &t, false), &[("title", "Big")]);
    let minified = render(&compile("big_whitespace.stpl", &t, true), &[("title", "Big")]);
    assert!(
        minified.len() < raw.len(),
        "minified ({} bytes) should be smaller than raw ({} bytes)",
        minified.len(),
        raw.len()
    );
    let raw_ws = whitespace_ratio(&raw);
    let min_ws = whitespace_ratio(&minified);
    assert!(
        min_ws < raw_ws * 0.5,
        "whitespace ratio should collapse (raw {:.3}, minified {:.3})",
        raw_ws,
        min_ws
    );
}

#[test]
fn test_big_whitespace_template_content_preserved() {
    let t = templates(&[("big_whitespace.stpl", big_whitespace_template())]);
    let minified = render(&compile("big_whitespace.stpl", &t, true), &[("title", "Big")]);
    assert!(minified.contains("Big"), "interpolated value should survive");
    assert!(minified.contains("Section Heading 500"), "body content should survive minification");
    assert!(minified.contains("UNIQUE_MARKER_FOOTER"), "footer marker should survive minification");
    assert!(!minified.contains("  "), "minified output should have no double spaces");
    assert!(!minified.starts_with('\n'));
}
