use sailfish_minify::includes::extract_include_ranges_with;
use sailfish_minify::template_path::extract_template_path_str_with;
use sailfish_minify::attributes::{apply_attribute_readings, AttributeReading, MinWithStop};
use sailfish_minify::MinWithArg;
use sailfish_minify::attributes::{command_arg_from, template_attribute_source};
use sailfish_minify::cache::{CacheDecision, PathCache, PathSet, template_cache_decision, visit_template};
use sailfish_minify::attributes::{first_template_attribute, replace_template_attribute};
use sailfish_minify::engine::CaptureSpan;
use sailfish_minify::includes::include_entries_from_spans;
use sailfish_minify::template_path::first_group_text;
use sailfish_minify::options::{custom_command, html_minifier_command, split_command, str_eq};
use sailfish_minify::paths::{include_reference_from, minified_name, resolve_template_path};
use sailfish_minify::template_path::{extract_template_path_str, extract_template_path_str_fallback};
use sailfish_minify::{
    component_output_path, extract_include_ranges, extract_includes, extract_includes_manual,
    extract_template_path, get_include_regex, get_minify_options_from_token_stream, include_reference,
    include_token_for, minifier_command, modify_template_path, native_minify_cfg, rewrite_include_tokens, stderr_is_fatal,
    Minifier, MinifyOptions,
};
use std::path::Path;

#[test]
fn include_token_round_trips() {
    let token = include_token_for("../sub/child.stpl.min");
    assert_eq!(token, "<% include!(\"../sub/child.stpl.min\"); %>");
    assert_eq!(extract_includes(&token), vec!["../sub/child.stpl.min"]);
    let spans = extract_includes_manual(&token);
    assert_eq!(spans, vec![(token.clone(), "../sub/child.stpl.min".to_string())]);
}

#[test]
fn rewrite_points_includes_at_new_paths() {
    let contents = "<main>\n<% include!(\"a.stpl\"); %>\n<%include!( \"b.stpl\" );%></main>";
    let includes = extract_include_ranges(contents);
    let out = rewrite_include_tokens(contents, &includes, &vec!["a.min".to_string(), "x/b.min".to_string()]);
    assert_eq!(
        out,
        "<main>\n<% include!(\"a.min\"); %>\n<% include!(\"x/b.min\"); %></main>"
    );
}

#[test]
fn include_regex_compiles() {
    assert!(get_include_regex().regex().is_match(r#"<% include!("a.stpl"); %>"#));
}

#[test]
fn split_command_keeps_empty_pieces() {
    assert_eq!(split_command("a  b\nc"), vec!["a", "", "b", "c"]);
    assert_eq!(split_command(""), vec![""]);
    assert_eq!(split_command("é ü"), vec!["é", "ü"]);
}

#[test]
fn custom_command_appends_input_and_output() {
    assert_eq!(
        custom_command("my-minifier --fast", "in.html", "out.html"),
        vec!["my-minifier", "--fast", "in.html", "-o", "out.html"]
    );
    assert_eq!(
        html_minifier_command("i", "o"),
        vec!["html-minifier", "--collapse-whitespace", "i", "-o", "o"]
    );
}

#[test]
fn command_per_minifier() {
    assert!(minifier_command(&Minifier::Native, "i", "o").is_none());
    assert_eq!(
        minifier_command(&Minifier::CustomUnchecked("m\n-x".to_string()), "i", "o").unwrap(),
        vec!["m", "-x", "i", "-o", "o"]
    );
    assert!(stderr_is_fatal(&Minifier::HTMLMinifier));
    assert!(stderr_is_fatal(&Minifier::Custom("m".to_string())));
    assert!(!stderr_is_fatal(&Minifier::CustomUnchecked("m".to_string())));
    assert!(!stderr_is_fatal(&Minifier::Native));
}

#[test]
fn min_with_variants() {
    let cases = [
        (r#"#[min_with(HTMLMinifier)] struct Foo;"#, Some(Minifier::HTMLMinifier)),
        (r#"#[min_with(Native)] struct Foo;"#, Some(Minifier::Native)),
        (r#"#[min_with(Native())] struct Foo;"#, Some(Minifier::Native)),
        (r#"#[min_with(Custom(cmd))] struct Foo;"#, Some(Minifier::Custom("cmd".to_string()))),
        (r#"#[min_with(Native = "x")] struct Foo;"#, None),
        (r#"#[min_with(Other("x"))] struct Foo;"#, None),
    ];
    for (source, expected) in cases {
        let tokens: proc_macro2::TokenStream = source.parse().unwrap();
        let mut options = MinifyOptions { minifier: Minifier::HTMLMinifier };
        let result = get_minify_options_from_token_stream(tokens, &mut options);
        match expected {
            Some(m) => {
                assert!(result.is_ok(), "{}", source);
                assert_eq!(options.minifier, m);
            }
            None => assert!(result.is_err(), "{}", source),
        }
    }
}

#[test]
fn min_with_later_attribute_wins_and_others_are_ignored() {
    let tokens: proc_macro2::TokenStream =
        r#"#[derive(Debug)] #[min_with(Native)] #[template(path = "x")] #[min_with(Custom("c"))] struct Foo;"#
            .parse()
            .unwrap();
    let mut options = MinifyOptions::default();
    get_minify_options_from_token_stream(tokens, &mut options).unwrap();
    assert_eq!(options.minifier, Minifier::Custom("c".to_string()));
}

#[test]
fn min_with_on_non_struct_is_error() {
    let tokens: proc_macro2::TokenStream = "enum E { A }".parse().unwrap();
    let mut options = MinifyOptions::default();
    assert!(get_minify_options_from_token_stream(tokens, &mut options).is_err());
    assert_eq!(options.minifier, Minifier::Native);
}

#[test]
fn command_arg_prefers_literal_value() {
    assert_eq!(command_arg_from(Some("v".to_string()), "\"v\"".to_string()), "v");
    assert_eq!(command_arg_from(None, "a b".to_string()), "a b");
}

#[test]
fn template_attribute_text() {
    assert_eq!(template_attribute_source("\"p\""), "#[template(path = \"p\")]");
}

#[test]
fn template_path_fallback_parser() {
    assert_eq!(extract_template_path_str_fallback(r#"#[template(path = "a/b.stpl")]"#), Some("a/b.stpl".to_string()));
    assert_eq!(extract_template_path_str_fallback("path\n=\t\"x\""), Some("x".to_string()));
    assert_eq!(extract_template_path_str_fallback(r#"path = """#), None);
    assert_eq!(
        extract_template_path_str_fallback(r#"#[min_with(Custom("m --path=x"))] #[template(path = "a.stpl")] struct Foo;"#),
        Some("a.stpl".to_string())
    );
    assert_eq!(extract_template_path_str_fallback(r#"path = "" path = "c.stpl""#), Some("c.stpl".to_string()));
    assert_eq!(extract_template_path_str_fallback("subpath\u{3000}=\u{a0}\"é/ü.stpl\""), Some("é/ü.stpl".to_string()));
    assert_eq!(extract_template_path_str_fallback(r#"path "x""#), None);
    assert_eq!(extract_template_path_str_fallback(r#"path = x"#), None);
    assert_eq!(extract_template_path_str_fallback(r#"path = "x"#), None);
    assert_eq!(extract_template_path_str_fallback("no attribute"), None);
}

#[test]
fn template_path_pattern() {
    assert_eq!(
        extract_template_path_str(r#"#[derive(Debug)] #[template(path = "x.stpl", escape = false)] struct S;"#),
        Some("x.stpl".to_string())
    );
    assert_eq!(extract_template_path_str(r#"#[template(path = "")] struct S;"#), None);
}

#[test]
fn absolute_template_path_is_kept() {
    assert_eq!(extract_template_path(r#"#[template(path = "/abs/t.stpl")] struct S;"#).unwrap(), "/abs/t.stpl");
    assert_eq!(resolve_template_path("/abs/t.stpl"), "/abs/t.stpl");
    assert_eq!(Path::new(&resolve_template_path("t.stpl")), Path::new("./templates/t.stpl"));
}

#[test]
fn output_paths() {
    assert_eq!(minified_name("a.stpl"), "a.stpl.min");
    assert_eq!(
        Path::new(&component_output_path("/tmp/sm", "templates/x/main.stpl", "child.stpl")),
        Path::new("/tmp/sm/templates/x/child.stpl.min")
    );
    assert_eq!(include_reference("/tmp/sm/templates/child.stpl.min", "/tmp/sm/templates"), "child.stpl.min");
    assert_eq!(include_reference("/tmp/sm/a/c.min", "/tmp/sm/b"), "../a/c.min");
    assert_eq!(include_reference_from("/x", None), "/x");
    assert_eq!(include_reference_from("/x", Some("y".to_string())), "y");
}

#[test]
fn native_settings() {
    let cfg = native_minify_cfg();
    assert!(cfg.preserve_chevron_percent_template_syntax && cfg.keep_comments && cfg.keep_closing_tags);
    let out = sailfish_minify::minify_native(b"<!-- note --><p>  <% if x { %>  a  <% } %>  </p>");
    let out = String::from_utf8(out).unwrap();
    assert!(out.contains("<!-- note -->"));
    assert!(out.contains("<% if x { %>"));
    assert!(out.ends_with("</p>"));
}

#[test]
fn str_eq_compares_text() {
    assert!(str_eq("héllo", "héllo"));
    assert!(!str_eq("hello", "hellö"));
    assert!(!str_eq("a", "ab"));
}

#[test]
fn cache_records_outputs() {
    let mut cache = PathCache::new();
    assert_eq!(cache.get("/t/a.stpl"), None);
    cache.insert("/t/a.stpl".to_string(), "/tmp/a.min".to_string());
    cache.insert("/t/b.stpl".to_string(), "/tmp/b.min".to_string());
    cache.insert("/t/a.stpl".to_string(), "/tmp/a2.min".to_string());
    assert_eq!(cache.get("/t/a.stpl"), Some("/tmp/a2.min".to_string()));
    assert_eq!(cache.get("/t/b.stpl"), Some("/tmp/b.min".to_string()));
}

#[test]
fn path_set_insert_reports_novelty() {
    let mut set = PathSet::new();
    assert!(set.insert("a".to_string()));
    assert!(!set.insert("a".to_string()));
    assert!(set.contains("a"));
    assert!(!set.contains("b"));
}

#[test]
fn second_compile_hits_cache() {
    let mut processed = PathSet::new();
    let mut cache = PathCache::new();
    assert!(matches!(template_cache_decision(&processed, &cache, "/t/a.stpl"), CacheDecision::Minify));
    processed.insert("/t/a.stpl".to_string());
    cache.insert("/t/a.stpl".to_string(), "/tmp/a.min".to_string());
    assert!(matches!(
        template_cache_decision(&processed, &cache, "/t/a.stpl"),
        CacheDecision::AlreadyProcessed
    ));
    let fresh = PathSet::new();
    match template_cache_decision(&fresh, &cache, "/t/a.stpl") {
        CacheDecision::Cached(out) => assert_eq!(out, "/tmp/a.min"),
        _ => panic!("a recorded template should reuse its output"),
    }
}

#[test]
fn min_with_arguments_apply_in_order_until_a_wrong_one() {
    let readings = vec![
        AttributeReading::MinWith(MinWithArg::Path { ident: "Native".to_string() }),
        AttributeReading::Other,
        AttributeReading::MinWith(MinWithArg::List { kind: "Custom".to_string(), inner: "x".to_string() }),
        AttributeReading::MinWith(MinWithArg::Path { ident: "Bad".to_string() }),
        AttributeReading::MinWith(MinWithArg::Path { ident: "HTMLMinifier".to_string() }),
    ];
    let mut options = MinifyOptions::default();
    assert_eq!(apply_attribute_readings(&mut options, &readings), Err(MinWithStop::NoMinifier(3)));
    assert_eq!(options.minifier, Minifier::Custom("x".to_string()));

    let mut options = MinifyOptions::default();
    let valid = vec![
        AttributeReading::MinWith(MinWithArg::Path { ident: "HTMLMinifier".to_string() }),
        AttributeReading::Other,
        AttributeReading::MinWith(MinWithArg::List { kind: "Custom".to_string(), inner: "x".to_string() }),
    ];
    assert_eq!(apply_attribute_readings(&mut options, &valid), Ok(()));
    assert_eq!(options.minifier, Minifier::Custom("x".to_string()));

    let mut options = MinifyOptions::default();
    let unparsed = vec![
        AttributeReading::MinWith(MinWithArg::Path { ident: "HTMLMinifier".to_string() }),
        AttributeReading::Unparsed,
        AttributeReading::MinWith(MinWithArg::Path { ident: "Bad".to_string() }),
    ];
    assert_eq!(apply_attribute_readings(&mut options, &unparsed), Err(MinWithStop::Unparsed(1)));
    assert_eq!(options.minifier, Minifier::HTMLMinifier);

    let mut options = MinifyOptions::default();
    assert_eq!(apply_attribute_readings(&mut options, &Vec::new()), Ok(()));
    assert_eq!(options.minifier, Minifier::Native);
}

#[test]
fn without_an_engine_the_manual_parsers_decide() {
    let contents = "<% include!(\"a\"); %><%include!(\"b\")%><% include!(\"c\"); %>";
    assert_eq!(
        extract_include_ranges_with(&None, contents),
        sailfish_minify::extract_includes_manual_ranges(contents)
    );
    assert_eq!(extract_include_ranges_with(&None, contents).len(), 2);
    assert_eq!(
        extract_template_path_str_with(&None, "path = \"x\""),
        Some("x".to_string())
    );
    assert_eq!(extract_template_path_str(r#"path = "x""#), None);
    assert_eq!(
        extract_template_path_str_with(&None, r#"#[min_with(Custom("m --path=x"))] #[template(path = "a.stpl")] struct Foo;"#),
        Some("a.stpl".to_string())
    );
    assert_eq!(extract_template_path_str_with(&None, r#"#[template(path = "")] struct Foo;"#), None);
}

#[test]
fn first_template_attribute_is_found() {
    let names = vec![Some("derive".to_string()), None, Some("template".to_string()), Some("template".to_string())];
    assert_eq!(first_template_attribute(&names), Some(2));
    assert_eq!(first_template_attribute(&vec![Some("derive".to_string())]), None);
    assert_eq!(first_template_attribute(&Vec::new()), None);
}

#[test]
fn only_the_first_template_attribute_is_replaced() {
    let attrs = syn::parse::Parser::parse_str(
        syn::Attribute::parse_outer,
        r#"#[derive(Debug)] #[template(path = "a.stpl")] #[template(path = "b.stpl")]"#,
    )
    .unwrap();
    let names: Vec<Option<String>> = attrs
        .iter()
        .map(|a| a.path().get_ident().map(|i| i.to_string()))
        .collect();
    let new_attr = syn::parse::Parser::parse_str(syn::Attribute::parse_outer, r#"#[template(path = "n.stpl")]"#)
        .unwrap()
        .pop()
        .unwrap();
    let out = replace_template_attribute(attrs.clone(), &names, new_attr.clone());
    assert_eq!(out.len(), 3);
    let text = |a: &syn::Attribute| quote::ToTokens::to_token_stream(a).to_string();
    assert_eq!(text(&out[0]), text(&attrs[0]));
    assert_eq!(text(&out[1]), text(&new_attr));
    assert_eq!(text(&out[2]), text(&attrs[2]));
    let none = replace_template_attribute(vec![attrs[0].clone()], &vec![names[0].clone()], new_attr);
    assert_eq!(none.len(), 1);
    assert_eq!(text(&none[0]), text(&attrs[0]));
}

#[test]
fn include_entries_come_from_group_spans() {
    let text = r#"ab<% include!("x.stpl"); %>cd"#;
    let spans = vec![
        CaptureSpan { start: 0, end: 1, group: None },
        CaptureSpan { start: 2, end: 27, group: Some((15, 21)) },
    ];
    let entries = include_entries_from_spans(text, &spans);
    assert_eq!(entries.len(), 1);
    assert_eq!(entries[0].0, 2..27);
    assert_eq!(entries[0].1, r#"<% include!("x.stpl"); %>"#);
    assert_eq!(entries[0].2, "x.stpl");
}

#[test]
fn first_group_text_skips_matches_without_group() {
    let text = "one two three";
    let spans = vec![
        CaptureSpan { start: 0, end: 3, group: None },
        CaptureSpan { start: 4, end: 7, group: Some((4, 7)) },
        CaptureSpan { start: 8, end: 13, group: Some((8, 13)) },
    ];
    assert_eq!(first_group_text(text, &spans), Some("two".to_string()));
    assert_eq!(first_group_text(text, &vec![CaptureSpan { start: 0, end: 3, group: None }]), None);
    assert_eq!(first_group_text(text, &Vec::new()), None);
}

#[test]
fn visiting_a_template_twice_skips_it() {
    let mut processed = PathSet::new();
    let mut cache = PathCache::new();
    cache.insert("/t/b.stpl".to_string(), "/tmp/b.stpl.min".to_string());
    assert!(matches!(visit_template(&mut processed, &cache, "/t/a.stpl".to_string()), CacheDecision::Minify));
    assert!(processed.contains("/t/a.stpl"));
    assert!(matches!(
        visit_template(&mut processed, &cache, "/t/a.stpl".to_string()),
        CacheDecision::AlreadyProcessed
    ));
    match visit_template(&mut processed, &cache, "/t/b.stpl".to_string()) {
        CacheDecision::Cached(p) => assert_eq!(p, "/tmp/b.stpl.min"),
        _ => panic!("expected the recorded output"),
    }
    assert!(matches!(
        visit_template(&mut processed, &cache, "/t/b.stpl".to_string()),
        CacheDecision::AlreadyProcessed
    ));
}

#[test]
fn output_paths_end_with_the_minified_name() {
    let out = modify_template_path("/tmp/sm", "templates/x/page.stpl");
    assert!(out.ends_with("page.stpl.min"));
    assert!(out.starts_with("/tmp/sm"));
    let child = component_output_path("/tmp/sm", "templates/x/page.stpl", "part.stpl");
    assert!(child.ends_with("part.stpl.min"));
    assert!(child.starts_with("/tmp/sm"));
    assert_eq!(resolve_template_path("foo.stpl"), "./templates/foo.stpl");
    assert_eq!(resolve_template_path("/srv/tpl/foo.stpl"), "/srv/tpl/foo.stpl");
    assert!(!include_reference("/tmp/sm/x/c.min", "/tmp/sm/y/z").starts_with('/'));
    assert!(resolve_template_path("sub/bar.stpl").ends_with("sub/bar.stpl"));
    assert!(resolve_template_path("sub/bar.stpl").starts_with("./templates"));
}
