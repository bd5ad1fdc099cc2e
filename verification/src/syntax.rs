//! The Rust syntax of a derive input, as the `proc-macro2`, `syn` and
//! `quote` crates give it.  The values are carried through unopened; what
//! the library reads of them comes back as plain strings.

use vstd::prelude::*;
use proc_macro2::TokenStream;
use syn::{Attribute, ItemStruct};

verus! {

/// A stream of Rust tokens (`proc_macro2::TokenStream`).
#[verifier::external_type_specification]
#[verifier::external_body]
pub struct ExTokenStream(TokenStream);

/// A parse error with its source location (`syn::Error`).
#[verifier::external_type_specification]
#[verifier::external_body]
pub struct ExSynError(syn::Error);

/// An outer attribute, `#[...]` (`syn::Attribute`).
#[verifier::external_type_specification]
#[verifier::external_body]
pub struct ExAttribute(Attribute);

/// A struct item (`syn::ItemStruct`).
#[verifier::external_type_specification]
#[verifier::external_body]
pub struct ExItemStruct(ItemStruct);

/// The arguments of an attribute, parsed as `syn::Meta` and told apart by
/// variant: a path with a parenthesized list, a bare path, or anything else.
pub enum MetaShape {
    /// `path(tokens)`: the first segment of the path, and the tokens.
    List { head: Option<String>, tokens: TokenStream },
    /// A bare path: its first segment.
    Path { head: Option<String> },
    /// `path = value`.
    NameValue,
}

/// An error with `message` at the macro's call site
/// (`syn::Error::new(Span::call_site(), message)`).
#[verifier::external_body]
pub(crate) fn error_at_call_site(message: &str) -> (r: syn::Error) {
    syn::Error::new(proc_macro2::Span::call_site(), message)
}

/// An error with `message` located at `attr` (`syn::Error::new_spanned`).
#[verifier::external_body]
pub(crate) fn error_at_attribute(attr: &Attribute, message: &str) -> (r: syn::Error) {
    syn::Error::new_spanned(attr, message)
}

/// `tokens` parsed as a struct item (`syn::parse2::<ItemStruct>`), or the
/// parse error.
#[verifier::external_body]
pub(crate) fn parse_item_struct(tokens: TokenStream) -> (r: Result<ItemStruct, syn::Error>) {
    syn::parse2::<ItemStruct>(tokens)
}

/// Moves the attributes out of `item`, leaving it with none.
#[verifier::external_body]
pub(crate) fn take_attributes(item: &mut ItemStruct) -> (r: Vec<Attribute>) {
    std::mem::take(&mut item.attrs)
}

/// Gives `item` the attributes `attrs`.
#[verifier::external_body]
pub(crate) fn set_attributes(item: &mut ItemStruct, attrs: Vec<Attribute>) {
    item.attrs = attrs;
}

/// The tokens of `item` (`quote::ToTokens::into_token_stream`).
#[verifier::external_body]
pub(crate) fn item_tokens(item: ItemStruct) -> (r: TokenStream) {
    quote::ToTokens::into_token_stream(item)
}

/// The name of an attribute whose path is a single identifier
/// (`Path::get_ident`, as text), else `None`.  `attr.path().is_ident(x)`
/// holds exactly when this is `Some(x)`.
#[verifier::external_body]
pub(crate) fn attribute_ident(attr: &Attribute) -> (r: Option<String>) {
    attr.path().get_ident().map(|ident| ident.to_string())
}

/// The arguments of `attr` parsed as `syn::Meta` (`Attribute::parse_args`),
/// told apart by variant, or the parse error.
#[verifier::external_body]
pub(crate) fn attribute_meta(attr: &Attribute) -> (r: Result<MetaShape, syn::Error>) {
    match attr.parse_args::<syn::Meta>()? {
        syn::Meta::List(list) => Ok(MetaShape::List {
            head: list.path.segments.first().map(|s| s.ident.to_string()),
            tokens: list.tokens,
        }),
        syn::Meta::Path(path) => Ok(MetaShape::Path {
            head: path.segments.first().map(|s| s.ident.to_string()),
        }),
        syn::Meta::NameValue(_) => Ok(MetaShape::NameValue),
    }
}

/// The value of `tokens` read as one string literal
/// (`syn::parse2::<LitStr>`, then `LitStr::value`), or `None` when they are
/// not one.
#[verifier::external_body]
pub(crate) fn string_literal_value(tokens: &TokenStream) -> (r: Option<String>) {
    syn::parse2::<syn::LitStr>(tokens.clone()).ok().map(|lit| lit.value())
}

/// The text of `tokens` (`TokenStream`'s `to_string`).
#[verifier::external_body]
pub(crate) fn tokens_text(tokens: &TokenStream) -> (r: String) {
    tokens.to_string()
}

/// Writes `s` as a Rust string literal, quoting and escaping it
/// (`proc_macro2::Literal::string`, then `to_string`).  Nothing is stated
/// of the text: inside the compiler and outside it, `proc-macro2` hands the
/// escaping to different code.
#[verifier::external_body]
pub(crate) fn string_literal(s: &str) -> (r: String) {
    proc_macro2::Literal::string(s).to_string()
}

/// The outer attributes written in `source`
/// (`Attribute::parse_outer` over the text), or the parse error.
#[verifier::external_body]
pub(crate) fn parse_outer_attributes(source: &str) -> (r: Result<Vec<Attribute>, syn::Error>) {
    syn::parse::Parser::parse_str(Attribute::parse_outer, source)
}

} // verus!
