use sailfish_minify::{
    extract_include_ranges, extract_includes, extract_includes_manual, extract_includes_manual_ranges,
    extract_includes_spans, extract_template_path, get_include_regex, get_minify_options_from_token_stream,
    modify_template_path, replace_path_attribute, splice_include_replacements, Minifier, MinifyOptions,
};
use std::path::{Path, PathBuf};

// ---------------------------------------------------------------------------
// Template Path Extraction
// ---------------------------------------------------------------------------

#[test]
fn test_extract_template_path_simple() {
    let path = extract_template_path(r#"#[template(path = "foo.stpl")] struct Foo;"#).unwrap();
    assert_eq!(PathBuf::from(path), Path::new("./templates").join("foo.stpl"));
}

#[test]
fn test_extract_template_path_nested() {
    let path = extract_template_path(r#"#[template(path = "sub/bar.stpl")] struct Foo;"#).unwrap();
    assert_eq!(PathBuf::from(path), Path::new("./templates").join("sub/bar.stpl"));
}

#[test]
fn test_extract_template_path_missing_panics() {
    let result = extract_template_path("struct Foo { name: String }");
    assert!(result.is_err(), "missing #[template] attribute should be an error, not a panic");
}

// ---------------------------------------------------------------------------
// Path Attribute Replacement
// ---------------------------------------------------------------------------

fn template_attr_path(item: &syn::ItemStruct) -> String {
    let attr = item
        .attrs
        .iter()
        .find(|a| a.path().is_ident("template"))
        .expect("template attribute should be present");
    let meta = attr.parse_args::<syn::Meta>().unwrap();
    match meta {
        syn::Meta::NameValue(nv) => match nv.value {
            syn::Expr::Lit(lit) => match lit.lit {
                syn::Lit::Str(s) => s.value(),
                _ => panic!("template path value should be a string literal"),
            },
            _ => panic!("template path value should be a string literal"),
        },
        _ => panic!("template attribute should be a name-value pair"),
    }
}

#[test]
fn test_replace_path_attribute_rewrites_correctly() {
    let input: proc_macro2::TokenStream =
        r#"#[template(path = "foo.stpl")] struct Foo { name: String }"#.parse().unwrap();
    let output = replace_path_attribute(input, "C:\\tmp\\foo.stpl.min").unwrap();

    let item: syn::ItemStruct = syn::parse2(output).unwrap();
    assert_eq!(template_attr_path(&item), "C:\\tmp\\foo.stpl.min");
}

#[test]
fn test_replace_path_attribute_preserves_other_attrs() {
    let input: proc_macro2::TokenStream =
        r#"#[derive(Debug)] #[template(path = "foo.stpl")] struct Foo { name: String }"#
            .parse()
            .unwrap();
    let output = replace_path_attribute(input, "out.stpl.min").unwrap();

    let item: syn::ItemStruct = syn::parse2(output).unwrap();
    assert!(item.attrs.iter().any(|a| a.path().is_ident("derive")), "derive attribute should be preserved");
    assert!(item.attrs.iter().any(|a| a.path().is_ident("template")), "template attribute should be present");
    assert_eq!(template_attr_path(&item), "out.stpl.min");
}

#[test]
fn replace_path_attribute_rejects_non_struct() {
    let input: proc_macro2::TokenStream = "fn foo() {}".parse().unwrap();
    assert!(replace_path_attribute(input, "x.min").is_err());
}

// ---------------------------------------------------------------------------
// Include Regex Parsing
// ---------------------------------------------------------------------------

#[test]
fn test_include_regex_simple() {
    let contents = r#"<div><% include!("header.stpl"); %></div>"#;
    let matches: Vec<String> = get_include_regex()
        .regex()
        .captures_iter(contents)
        .map(|cap| cap[1].to_string())
        .collect();
    assert_eq!(matches, vec!["header.stpl"]);
}

#[test]
fn test_include_regex_with_whitespace() {
    let contents = r#"<%   include! (  "file.stpl" )  ;  %>"#;
    assert_eq!(extract_includes(contents), vec!["file.stpl"]);
}

#[test]
fn test_include_regex_no_match_on_normal_template_code() {
    let contents = r#"<% for item in items { %><div><%= item %></div><% } %>"#;
    assert!(extract_includes(contents).is_empty());
}

#[test]
fn test_include_regex_multiple_matches() {
    let contents = r#"<% include!("a.stpl"); %><% include!("b.stpl"); %><% include!("c.stpl"); %><% include!("d.stpl"); %><% include!("e.stpl"); %>"#;
    assert_eq!(
        extract_includes(contents),
        vec!["a.stpl", "b.stpl", "c.stpl", "d.stpl", "e.stpl"]
    );
}

// ---------------------------------------------------------------------------
// Minify Options Parsing
// ---------------------------------------------------------------------------

#[test]
fn test_default_minifier_is_native() {
    let options = MinifyOptions::default();
    assert_eq!(options.minifier, Minifier::Native);
}

#[test]
fn test_native_minifier_parsed() {
    let tokens: proc_macro2::TokenStream =
        r#"#[min_with(Native)] struct Foo;"#.parse().unwrap();
    let mut options = MinifyOptions::default();
    get_minify_options_from_token_stream(tokens, &mut options).unwrap();
    assert_eq!(options.minifier, Minifier::Native);
}

#[test]
fn test_native_minifier_minifies_file() {
    let minified = sailfish_minify::minify_native(b"<div>\n  <p>  Hello   world  </p>\n</div>");
    assert_eq!(String::from_utf8(minified).unwrap(), "<div><p>Hello world</p></div>");
}

#[test]
fn unit_tests_test_custom_minifier() {
    let tokens: proc_macro2::TokenStream =
        r#"#[min_with(Custom("my-minifier --fast"))] struct Foo;"#.parse().unwrap();
    let mut options = MinifyOptions::default();
    get_minify_options_from_token_stream(tokens, &mut options).unwrap();
    assert_eq!(
        options.minifier,
        Minifier::Custom("my-minifier --fast".to_string())
    );
}

#[test]
fn test_custom_unchecked_minifier() {
    let tokens: proc_macro2::TokenStream =
        r#"#[min_with(CustomUnchecked("my-minifier"))] struct Foo;"#.parse().unwrap();
    let mut options = MinifyOptions::default();
    get_minify_options_from_token_stream(tokens, &mut options).unwrap();
    assert_eq!(
        options.minifier,
        Minifier::CustomUnchecked("my-minifier".to_string())
    );
}

#[test]
fn test_invalid_minifier_panics() {
    let tokens: proc_macro2::TokenStream =
        r#"#[min_with(Unknown)] struct Foo;"#.parse().unwrap();
    let mut options = MinifyOptions::default();
    assert!(
        get_minify_options_from_token_stream(tokens, &mut options).is_err(),
        "unknown minifier should be an error, not a panic"
    );
}

// ---------------------------------------------------------------------------
// Temp Path
// ---------------------------------------------------------------------------

#[test]
fn absolute_template_path_is_placed_in_tmp() {
    let new_path = modify_template_path("/tmp/sm", "/srv/tpl/foo.stpl");
    assert!(Path::new(&new_path).starts_with("/tmp/sm"));
    assert_eq!(Path::new(&new_path).file_name().unwrap(), "foo.stpl.min");
    assert_eq!(Path::new(&new_path), Path::new("/tmp/sm/srv/tpl/foo.stpl.min"));
}

#[test]
fn test_modify_template_path_places_file_in_tmp() {
    let tmp_dir = Path::new("tmp").join("sailfish-minify");
    let tmp = tmp_dir.to_str().unwrap();
    let new_path = modify_template_path(tmp, "./templates/test/simple.stpl");
    assert!(Path::new(&new_path).starts_with(tmp));
    assert!(new_path.ends_with("simple.stpl.min"));
}

// ---------------------------------------------------------------------------
// Manual parser and splicing
// ---------------------------------------------------------------------------

#[test]
fn manual_parser_agrees_with_regex_on_examples() {
    let samples = [
        r#"<div><% include!("header.stpl"); %></div>"#,
        r#"<%   include! (  "file.stpl" )  ;  %>"#,
        r#"<% for item in items { %><div><%= item %></div><% } %>"#,
        "<%include!(\"x\");%><% include!(\"\"); %><% include!(\"y\") %>",
        "<%\tinclude!(\"tab\"); %>",
        "<% include!\u{3000}(\"wide space\")\u{a0};\u{2028}%>é",
    ];
    for s in samples {
        assert_eq!(extract_includes_manual(s), extract_includes_spans(s), "on {:?}", s);
    }
}

#[test]
fn manual_ranges_are_byte_ranges() {
    let contents = "é<% include!(\"a.stpl\"); %>ü";
    let ranges = extract_includes_manual_ranges(contents);
    assert_eq!(ranges.len(), 1);
    assert_eq!(ranges[0].0, 2..27);
    assert_eq!(&contents[ranges[0].0.clone()], ranges[0].1);
    assert_eq!(ranges[0].2, "a.stpl");
}

#[test]
fn manual_parser_rejects_space_only_before_include() {
    assert!(extract_includes_manual("<%\tinclude!(\"a\"); %>").is_empty());
    assert_eq!(extract_includes_manual("<%  include!(\"a\"); %>").len(), 1);
}

#[test]
fn manual_parser_skips_empty_name_and_missing_semicolon() {
    assert!(extract_includes_manual(r#"<% include!(""); %>"#).is_empty());
    assert!(extract_includes_manual(r#"<% include!("a") %>"#).is_empty());
    assert!(extract_includes_manual(r#"<% include!("a"; %>"#).is_empty());
}

#[test]
fn splice_sorts_and_replaces() {
    let contents = "0123456789";
    let out = splice_include_replacements(
        contents,
        vec![(6..8, "B".to_string()), (1..3, "A".to_string())],
    );
    assert_eq!(out, "0A345B89");
}

#[test]
fn splice_with_no_replacements_is_identity() {
    assert_eq!(splice_include_replacements("héllo", Vec::new()), "héllo");
}

#[test]
fn splice_found_includes_back_is_identity() {
    let contents = "<a><% include!(\"x.stpl\"); %></a>\n<% include!(\"y.stpl\"); %>";
    let ranges = extract_include_ranges(contents);
    let reps = ranges.iter().map(|(r, full, _)| (r.clone(), full.clone())).collect();
    assert_eq!(splice_include_replacements(contents, reps), contents);
}
