//! Reading and rewriting the attributes of a `#[derive(TemplateSimple)]`
//! input: `#[template(path = "...")]` and `#[min_with(...)]`.

use vstd::prelude::*;
use vstd::string::StringExecFns;
use proc_macro2::TokenStream;
use syn::Attribute;
use crate::options::{
    MinifyOptions, MinWithArg, MinWithArgView, MinifierView, str_eq, selected_minifier,
    minifier_for_arg,
};
use crate::syntax::{
    MetaShape, error_at_call_site, error_at_attribute, parse_item_struct, take_attributes,
    set_attributes, item_tokens, attribute_ident, attribute_meta, string_literal_value,
    tokens_text, string_literal, parse_outer_attributes,
};
use crate::template_path::{
    extract_template_path_str, first_group, TEMPLATE_PATH_REGEX,
};
use crate::engine::regex_captures;
use vstd::string::StringSliceAdditionalSpecFns;
use crate::paths::{resolve_template_path, resolved_template_path};
use vstd::utf8::*;

verus! {

/// The error for a derive input without a template path.
pub const MISSING_TEMPLATE_PATH: &'static str = "Cannot find template path in struct attributes. Make sure to use #[template(path = \"...\")] for minified templates";

/// The error for a `#[min_with(...)]` that names no minifier.
pub const WRONG_MINIFIER_VALUE: &'static str = "Wrong minifier value, supported values are HTMLMinifier, Native, Custom/CustomUnchecked(\"command\")";

/// The template file named by the `#[template(path = "...")]` attribute in
/// the text `attrs`: an absolute path as it is, a relative one under
/// `./templates`; an error when the attribute text names no path.
pub fn extract_template_path(attrs: &str) -> (r: Result<String, syn::Error>)
    ensures
        path_read_from(attrs.spec_bytes(), first_group(regex_captures(TEMPLATE_PATH_REGEX@, attrs@)), r),
{
    match extract_template_path_str(attrs) {
        None => Err(error_at_call_site(MISSING_TEMPLATE_PATH)),
        Some(path) => {
            let r = resolve_template_path(path.as_str());
            assert(encode_utf8(path@) == encode_utf8(path@));
            Ok(r)
        },
    }
}

/// `r` is what the template path at the byte range `span` of the attribute
/// text `b` resolves to: an error where there is no span, else the path
/// `x` written there, resolved (`resolved_template_path`): kept when it
/// starts with `/`, under `./templates` when it is `plain_relative`, and
/// ending with `x` in every case.
pub open spec fn path_read_from(b: Seq<u8>, span: Option<(int, int)>, r: Result<String, syn::Error>) -> bool {
    match (span, r) {
        (None, Err(_)) => true,
        (Some((s, e)), Ok(p)) => exists|x: Seq<char>|
            #![trigger encode_utf8(x)]
            encode_utf8(x) == b.subrange(s, e) && resolved_template_path(x, p@),
        _ => false,
    }
}

/// The argument of `Custom(...)` / `CustomUnchecked(...)`: given the value of
/// the tokens read as one string literal, if they are one, and their text,
/// the literal's value, else the text.
pub fn command_arg_from(literal: Option<String>, text: String) -> (r: String)
    ensures
        r@ == (match literal {
            Some(v) => v@,
            None => text@,
        }),
{
    match literal {
        Some(v) => v,
        None => text,
    }
}

/// The argument of `Custom(...)` / `CustomUnchecked(...)`: a quoted string
/// literal (`Custom("cmd --flag")`) gives its value, bare tokens
/// (`Custom(cmd --flag)`) give their text.
pub fn parse_command_arg(tokens: &TokenStream) -> (r: String) {
    let literal = string_literal_value(tokens);
    let text = tokens_text(tokens);
    command_arg_from(literal, text)
}

/// The `MinWithArg` of the parsed arguments of a `#[min_with(...)]`: a list
/// gives its head and its argument, a bare path its head, anything else
/// (or a path without segments) `Other`.
pub fn min_with_arg(shape: &MetaShape) -> (r: MinWithArg)
    ensures
        match shape {
            MetaShape::List { head: Some(kind), tokens: _ } => r@ matches MinWithArgView::List { kind: k, inner: _ } && k == kind@,
            MetaShape::Path { head: Some(ident) } => r@ == MinWithArgView::Path { ident: ident@ },
            _ => r@ == MinWithArgView::Other,
        },
{
    match shape {
        MetaShape::List { head: Some(kind), tokens } => MinWithArg::List {
            kind: kind.clone(),
            inner: parse_command_arg(tokens),
        },
        MetaShape::Path { head: Some(ident) } => MinWithArg::Path { ident: ident.clone() },
        _ => MinWithArg::Other,
    }
}

/// Whether `attr` is a `#[min_with(...)]` attribute.
fn is_min_with(attr: &Attribute) -> (r: bool) {
    match attribute_ident(attr) {
        Some(name) => str_eq(name.as_str(), "min_with"),
        None => false,
    }
}

/// What the reader of `#[min_with(...)]` attributes makes of one attribute.
pub enum AttributeReading {
    /// Another attribute.
    Other,
    /// A `#[min_with(...)]` whose arguments read as this.
    MinWith(MinWithArg),
    /// A `#[min_with(...)]` whose arguments do not parse.
    Unparsed,
}

/// An `AttributeReading` with its strings taken as characters.
pub enum AttributeReadingView {
    Other,
    MinWith(MinWithArgView),
    Unparsed,
}

impl View for AttributeReading {
    type V = AttributeReadingView;

    open spec fn view(&self) -> AttributeReadingView {
        match self {
            AttributeReading::Other => AttributeReadingView::Other,
            AttributeReading::MinWith(a) => AttributeReadingView::MinWith(a@),
            AttributeReading::Unparsed => AttributeReadingView::Unparsed,
        }
    }
}

/// The views of a list of `AttributeReading`s.
pub open spec fn reading_views(rs: Seq<AttributeReading>) -> Seq<AttributeReadingView> {
    rs.map_values(|r: AttributeReading| r@)
}

/// Where reading the `#[min_with(...)]` attributes stopped, by the
/// attribute's position.
#[derive(Debug, PartialEq, Eq, Structural)]
pub enum MinWithStop {
    /// Its arguments do not parse.
    Unparsed(usize),
    /// Its argument names no minifier.
    NoMinifier(usize),
}

/// Reading the attributes `rs` in order from the minifier `m`: each
/// `#[min_with(...)]` selects its minifier, other attributes change
/// nothing, and reading stops at the first one that does not parse or names
/// no minifier.  The result is the minifier reached and where reading
/// stopped (`None` when it read them all).
pub open spec fn read_attributes(m: MinifierView, rs: Seq<AttributeReadingView>) -> (MinifierView, Option<MinWithStop>)
    decreases rs.len(),
{
    if rs.len() == 0 {
        (m, None)
    } else {
        let (m0, stop) = read_attributes(m, rs.drop_last());
        if stop is Some {
            (m0, stop)
        } else {
            match rs.last() {
                AttributeReadingView::Other => (m0, None),
                AttributeReadingView::Unparsed => (m0, Some(MinWithStop::Unparsed((rs.len() - 1) as usize))),
                AttributeReadingView::MinWith(a) => match selected_minifier(a) {
                    Some(x) => (x, None),
                    None => (m0, Some(MinWithStop::NoMinifier((rs.len() - 1) as usize))),
                },
            }
        }
    }
}

/// Once reading has stopped, the attributes after that change nothing.
proof fn lemma_read_stopped(m: MinifierView, rs: Seq<AttributeReadingView>, k: int)
    requires
        0 <= k <= rs.len(),
        read_attributes(m, rs.take(k)).1 is Some,
    ensures
        read_attributes(m, rs) == read_attributes(m, rs.take(k)),
    decreases rs.len() - k,
{
    if k < rs.len() {
        assert(rs.drop_last().take(k) =~= rs.take(k));
        lemma_read_stopped(m, rs.drop_last(), k);
    } else {
        assert(rs.take(k) =~= rs);
    }
}

/// Applies the attribute readings `rs` to `options` in order
/// (`read_attributes`): the minifier reached is set, and the result says
/// where reading stopped.
pub fn apply_attribute_readings(options: &mut MinifyOptions, rs: &Vec<AttributeReading>) -> (r: Result<(), MinWithStop>)
    ensures
        ({
            let (m, stop) = read_attributes(old(options).minifier@, reading_views(rs@));
            &&& final(options).minifier@ == m
            &&& match stop {
                None => r is Ok,
                Some(s) => r == Err::<(), MinWithStop>(s),
            }
        }),
{
    let ghost start = options.minifier@;
    let ghost v = reading_views(rs@);
    assert(v.take(0) =~= Seq::<AttributeReadingView>::empty());
    let mut i: usize = 0;
    while i < rs.len()
        invariant
            i <= rs@.len(),
            v == reading_views(rs@),
            v.len() == rs@.len(),
            start == old(options).minifier@,
            read_attributes(start, v.take(i as int)) == (options.minifier@, None::<MinWithStop>),
        decreases rs@.len() - i,
    {
        proof {
            assert(v.take(i + 1).drop_last() =~= v.take(i as int));
            assert(v.take(i + 1).last() == v[i as int]);
            assert(v[i as int] == rs@[i as int]@);
        }
        match &rs[i] {
            AttributeReading::Other => {},
            AttributeReading::Unparsed => {
                proof {
                    lemma_read_stopped(start, v, i + 1);
                }
                return Err(MinWithStop::Unparsed(i));
            },
            AttributeReading::MinWith(a) => {
                match minifier_for_arg(a) {
                    Some(m) => {
                        options.minifier = m;
                    },
                    None => {
                        proof {
                            lemma_read_stopped(start, v, i + 1);
                        }
                        return Err(MinWithStop::NoMinifier(i));
                    },
                }
            },
        }
        i = i + 1;
    }
    assert(v.take(rs@.len() as int) =~= v);
    Ok(())
}

/// Reads the `#[min_with(...)]` attributes of the struct in `tokens`, in
/// order, and applies what each one selects to `options`
/// (`apply_attribute_readings`).  An error comes from tokens that are not
/// a struct, from arguments that do not parse, and from an argument that
/// names no minifier; the attributes before the failing one have already
/// taken effect.  How the attributes read depends on what `syn` parses out
/// of the opaque tokens, so the readings are not stated; what holds for
/// every reading is.
pub fn get_minify_options_from_token_stream(
    tokens: TokenStream,
    options: &mut MinifyOptions,
) -> (r: Result<(), syn::Error>)
    ensures
        exists|rs: Seq<AttributeReadingView>|
            #![trigger read_attributes(old(options).minifier@, rs)]
            final(options).minifier@ == read_attributes(old(options).minifier@, rs).0 && (r is Ok
                ==> read_attributes(old(options).minifier@, rs).1 is None) && (read_attributes(
                old(options).minifier@,
                rs,
            ).1 is Some ==> r is Err),
{
    let mut item = match parse_item_struct(tokens) {
        Ok(item) => item,
        Err(e) => {
            assert(read_attributes(options.minifier@, Seq::<AttributeReadingView>::empty()).0 == options.minifier@);
            return Err(e);
        },
    };
    let attrs = take_attributes(&mut item);
    let mut readings: Vec<AttributeReading> = Vec::new();
    let mut parse_error: Option<syn::Error> = None;
    let mut i: usize = 0;
    while i < attrs.len()
        invariant_except_break
            parse_error is None,
            readings@.len() == i,
            forall|j: int| 0 <= j < readings@.len() ==> !(#[trigger] readings@[j] is Unparsed),
        invariant
            i <= attrs@.len(),
            options.minifier@ == old(options).minifier@,
        ensures
            readings@.len() <= attrs@.len(),
            parse_error is None ==> forall|j: int| 0 <= j < readings@.len() ==> !(#[trigger] readings@[j] is Unparsed),
        decreases attrs@.len() - i,
    {
        if is_min_with(&attrs[i]) {
            match attribute_meta(&attrs[i]) {
                Ok(shape) => {
                    readings.push(AttributeReading::MinWith(min_with_arg(&shape)));
                },
                Err(e) => {
                    readings.push(AttributeReading::Unparsed);
                    parse_error = Some(e);
                    break;
                },
            }
        } else {
            readings.push(AttributeReading::Other);
        }
        i = i + 1;
    }
    let ghost v = reading_views(readings@);
    assert(v.len() == readings@.len());
    match apply_attribute_readings(options, &readings) {
        Ok(()) => Ok(()),
        Err(MinWithStop::NoMinifier(j)) => {
            proof {
                lemma_stop_position(old(options).minifier@, v);
            }
            Err(error_at_attribute(&attrs[j], WRONG_MINIFIER_VALUE))
        },
        Err(MinWithStop::Unparsed(j)) => {
            proof {
                lemma_stop_position(old(options).minifier@, v);
                assert(v[j as int] == readings@[j as int]@);
            }
            Err(parse_error.unwrap())
        },
    }
}

/// Where reading stops is the position of an attribute, and it stops at
/// an unparsed one only on an unparsed one.
proof fn lemma_stop_position(m: MinifierView, rs: Seq<AttributeReadingView>)
    requires
        rs.len() <= usize::MAX,
    ensures
        read_attributes(m, rs).1 matches Some(MinWithStop::Unparsed(j)) ==> j < rs.len() && rs[j as int] is Unparsed,
        read_attributes(m, rs).1 matches Some(MinWithStop::NoMinifier(j)) ==> j < rs.len(),
    decreases rs.len(),
{
    if rs.len() > 0 {
        lemma_stop_position(m, rs.drop_last());
    }
}

/// The source text of the attribute `#[template(path = <literal>)]`.
pub fn template_attribute_source(literal: &str) -> (r: String)
    ensures
        r@ == "#[template(path = "@ + literal@ + ")]"@,
{
    let mut r = String::from_str("#[template(path = ");
    r.append(literal);
    r.append(")]");
    r
}

/// `name` is the single identifier `template`.
pub open spec fn names_template(name: Option<String>) -> bool {
    name matches Some(n) && n@ == "template"@
}

/// The position of the first attribute, among attributes with the names
/// `names` (`None` for one whose path is not a single identifier), that is
/// `#[template(...)]`, or `None` when there is none.
pub fn first_template_attribute(names: &Vec<Option<String>>) -> (r: Option<usize>)
    ensures
        r matches Some(k) ==> k < names@.len() && names_template(names@[k as int]) && forall|j: int|
            0 <= j < k ==> !names_template(#[trigger] names@[j]),
        r is None ==> forall|j: int| 0 <= j < names@.len() ==> !names_template(#[trigger] names@[j]),
{
    let mut i: usize = 0;
    while i < names.len()
        invariant
            i <= names@.len(),
            forall|j: int| 0 <= j < i ==> !names_template(#[trigger] names@[j]),
        decreases names@.len() - i,
    {
        match &names[i] {
            Some(name) => {
                if str_eq(name.as_str(), "template") {
                    return Some(i);
                }
            },
            None => {},
        }
        i = i + 1;
    }
    None
}

/// `attrs` with the attribute at the position `first_template_attribute`
/// finds in `names` replaced by `new_attr`, every other attribute kept in
/// its place; `attrs` as it is when no attribute is `#[template(...)]`.
pub fn replace_template_attribute(attrs: Vec<Attribute>, names: &Vec<Option<String>>, new_attr: Attribute) -> (r: Vec<Attribute>)
    requires
        attrs@.len() == names@.len(),
    ensures
        (exists|k: int|
            0 <= k < names@.len() && names_template(#[trigger] names@[k]) && (forall|j: int|
                0 <= j < k ==> !names_template(#[trigger] names@[j])) && r@ == attrs@.update(k, new_attr))
            || ((forall|j: int| 0 <= j < names@.len() ==> !names_template(#[trigger] names@[j])) && r@
            == attrs@),
{
    let mut attrs = attrs;
    let ghost old_attrs = attrs@;
    match first_template_attribute(names) {
        Some(k) => {
            attrs.set(k, new_attr);
            assert(names_template(names@[k as int]) && attrs@ == old_attrs.update(k as int, new_attr));
        },
        None => {},
    }
    attrs
}

/// The names of `attrs` (`attribute_ident` of each), in order.
fn attribute_names(attrs: &Vec<Attribute>) -> (r: Vec<Option<String>>)
    ensures
        r@.len() == attrs@.len(),
{
    let mut names: Vec<Option<String>> = Vec::new();
    let mut i: usize = 0;
    while i < attrs.len()
        invariant
            i <= attrs@.len(),
            names@.len() == i,
        decreases attrs@.len() - i,
    {
        names.push(attribute_ident(&attrs[i]));
        i = i + 1;
    }
    names
}

/// The struct in `input` with its first `#[template(...)]` attribute made
/// `#[template(path = "<new_path>")]`, every other attribute kept in its
/// place (`replace_template_attribute`); an error when `input` is not a
/// struct.  The token streams are opaque here: which attributes the struct
/// has, and the tokens of the result, are not stated.
pub fn replace_path_attribute(input: TokenStream, new_path: &str) -> (r: Result<TokenStream, syn::Error>) {
    let mut item = match parse_item_struct(input) {
        Ok(item) => item,
        Err(e) => return Err(e),
    };
    let attrs = take_attributes(&mut item);
    let names = attribute_names(&attrs);
    let attrs = match first_template_attribute(&names) {
        Some(_) => {
            let literal = string_literal(new_path);
            let source = template_attribute_source(literal.as_str());
            let mut parsed = match parse_outer_attributes(source.as_str()) {
                Ok(parsed) => parsed,
                Err(e) => return Err(e),
            };
            match parsed.pop() {
                Some(new_attr) => replace_template_attribute(attrs, &names, new_attr),
                None => attrs,
            }
        },
        None => attrs,
    };
    set_attributes(&mut item, attrs);
    Ok(item_tokens(item))
}

} // verus!
