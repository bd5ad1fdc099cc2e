//! The in-process minifier: `minify-html` with the settings sailfish
//! templates need.

use vstd::prelude::*;

verus! {

/// The `minify-html` settings the native minifier changes from the
/// crate's spec-compliant defaults.
pub struct NativeMinifyCfg {
    /// Pass `<% ... %>` blocks through untouched.
    pub preserve_chevron_percent_template_syntax: bool,
    /// Keep comments.
    pub keep_comments: bool,
    /// Do not omit optional closing tags.
    pub keep_closing_tags: bool,
}

/// The native minifier's settings, tuned for sailfish templates and for
/// parity with `html-minifier --collapse-whitespace`: `<% ... %>` blocks
/// pass through untouched, comments are kept, and optional closing tags are
/// not omitted.  Every other setting keeps `minify-html`'s default.
pub fn native_minify_cfg() -> (r: NativeMinifyCfg)
    ensures
        r.preserve_chevron_percent_template_syntax,
        r.keep_comments,
        r.keep_closing_tags,
{
    NativeMinifyCfg {
        preserve_chevron_percent_template_syntax: true,
        keep_comments: true,
        keep_closing_tags: true,
    }
}

/// What `minify_html::minify` returns for the source bytes `src` under a
/// configuration that is the crate's default with the three given settings.
pub uninterp spec fn html_minified(
    src: Seq<u8>,
    preserve_chevron_percent_template_syntax: bool,
    keep_comments: bool,
    keep_closing_tags: bool,
) -> Seq<u8>;

/// Minifies `src` with `minify_html::minify`, under `minify_html::Cfg`'s
/// default with the settings of `cfg`.  Claimed: the result is
/// `html_minified` of those arguments; the function reads nothing else, and
/// the one hash map it fills (of an element's attributes) is sorted by name
/// before it is written out.
#[verifier::external_body]
fn minify_html_bytes(src: &[u8], cfg: &NativeMinifyCfg) -> (r: Vec<u8>)
    ensures
        r@ == html_minified(
            src@,
            cfg.preserve_chevron_percent_template_syntax,
            cfg.keep_comments,
            cfg.keep_closing_tags,
        ),
{
    let settings = minify_html::Cfg {
        preserve_chevron_percent_template_syntax: cfg.preserve_chevron_percent_template_syntax,
        keep_comments: cfg.keep_comments,
        keep_closing_tags: cfg.keep_closing_tags,
        ..minify_html::Cfg::default()
    };
    minify_html::minify(src, &settings)
}

/// The template `contents` minified in-process with the native settings.
pub fn minify_native(contents: &[u8]) -> (r: Vec<u8>)
    ensures
        r@ == html_minified(contents@, true, true, true),
{
    let cfg = native_minify_cfg();
    minify_html_bytes(contents, &cfg)
}

} // verus!
