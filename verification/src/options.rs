//! Which minifier a template uses, how its `#[min_with(...)]` attribute
//! selects one, and the command line each external minifier is run with.

use vstd::prelude::*;
use vstd::utf8::*;
use vstd::string::StringSliceAdditionalSpecFns;
use vstd::string::StringExecFns;
use crate::text::{str_bytes, substring, exec_find_byte, find_byte_from, lemma_encode_utf8_injective,
    lemma_boundary_at_ascii, lemma_boundary_after_ascii};

verus! {

broadcast use vstd::utf8::group_utf8_lib;

/// How a template is minified.
#[derive(Debug, Clone, PartialEq)]
pub enum Minifier {
    /// Minify with the `html-minifier` CLI (must be installed and on `PATH`).
    HTMLMinifier,
    /// Run a custom command; its output on stderr is an error.
    Custom(String),
    /// Run a custom command; its output on stderr is ignored.
    CustomUnchecked(String),
    /// Pure-Rust minifier (`minify-html`): no process spawn, no system
    /// dependency.  This is the default minifier.
    Native,
}

/// A `Minifier` with its command taken as characters.
pub enum MinifierView {
    HTMLMinifier,
    Custom(Seq<char>),
    CustomUnchecked(Seq<char>),
    Native,
}

impl View for Minifier {
    type V = MinifierView;

    open spec fn view(&self) -> MinifierView {
        match self {
            Minifier::HTMLMinifier => MinifierView::HTMLMinifier,
            Minifier::Custom(c) => MinifierView::Custom(c@),
            Minifier::CustomUnchecked(c) => MinifierView::CustomUnchecked(c@),
            Minifier::Native => MinifierView::Native,
        }
    }
}

/// The options a template is minified with.
#[derive(Debug, Clone, PartialEq)]
pub struct MinifyOptions {
    pub minifier: Minifier,
}

impl Default for MinifyOptions {
    /// The native minifier.
    fn default() -> (r: Self)
        ensures
            r.minifier@ == MinifierView::Native,
    {
        MinifyOptions { minifier: Minifier::Native }
    }
}

/// Whether `a` and `b` hold the same text.
pub fn str_eq(a: &str, b: &str) -> (r: bool)
    ensures
        r == (a@ == b@),
{
    let x = str_bytes(a);
    let y = str_bytes(b);
    if x.len() != y.len() {
        return false;
    }
    let mut i: usize = 0;
    while i < x.len()
        invariant
            x@ == a.spec_bytes(),
            y@ == b.spec_bytes(),
            x@.len() == y@.len(),
            i <= x@.len(),
            forall|k: int| 0 <= k < i ==> x@[k] == y@[k],
        decreases x@.len() - i,
    {
        if x[i] != y[i] {
            return false;
        }
        i = i + 1;
    }
    proof {
        assert(a.spec_bytes() =~= b.spec_bytes());
        lemma_encode_utf8_injective(a@, b@);
    }
    true
}

/// What the arguments of a `#[min_with(...)]` attribute were parsed into.
pub enum MinWithArg {
    /// `Kind(...)`: the first segment of the path, and the argument (the
    /// value of a string literal, or else the tokens as text).
    List { kind: String, inner: String },
    /// A bare path: its first segment.
    Path { ident: String },
    /// Anything else.
    Other,
}

/// A `MinWithArg` with its strings taken as characters.
pub enum MinWithArgView {
    List { kind: Seq<char>, inner: Seq<char> },
    Path { ident: Seq<char> },
    Other,
}

impl View for MinWithArg {
    type V = MinWithArgView;

    open spec fn view(&self) -> MinWithArgView {
        match self {
            MinWithArg::List { kind, inner } => MinWithArgView::List { kind: kind@, inner: inner@ },
            MinWithArg::Path { ident } => MinWithArgView::Path { ident: ident@ },
            MinWithArg::Other => MinWithArgView::Other,
        }
    }
}

/// The minifier a `#[min_with(...)]` argument selects, if it names one:
/// `Custom(cmd)`, `CustomUnchecked(cmd)`, `Native(..)`, `HTMLMinifier` and
/// `Native`.
pub open spec fn selected_minifier(a: MinWithArgView) -> Option<MinifierView> {
    match a {
        MinWithArgView::List { kind, inner } => {
            if kind == "Custom"@ {
                Some(MinifierView::Custom(inner))
            } else if kind == "CustomUnchecked"@ {
                Some(MinifierView::CustomUnchecked(inner))
            } else if kind == "Native"@ {
                Some(MinifierView::Native)
            } else {
                None
            }
        },
        MinWithArgView::Path { ident } => {
            if ident == "HTMLMinifier"@ {
                Some(MinifierView::HTMLMinifier)
            } else if ident == "Native"@ {
                Some(MinifierView::Native)
            } else {
                None
            }
        },
        MinWithArgView::Other => None,
    }
}

/// The minifier that the argument of a `#[min_with(...)]` attribute
/// selects, or `None` when it names none (a wrong minifier value).
pub fn minifier_for_arg(arg: &MinWithArg) -> (r: Option<Minifier>)
    ensures
        r matches Some(m) ==> selected_minifier(arg@) == Some(m@),
        r is None <==> selected_minifier(arg@) is None,
{
    match arg {
        MinWithArg::List { kind, inner } => {
            if str_eq(kind.as_str(), "Custom") {
                Some(Minifier::Custom(inner.clone()))
            } else if str_eq(kind.as_str(), "CustomUnchecked") {
                Some(Minifier::CustomUnchecked(inner.clone()))
            } else if str_eq(kind.as_str(), "Native") {
                Some(Minifier::Native)
            } else {
                None
            }
        },
        MinWithArg::Path { ident } => {
            if str_eq(ident.as_str(), "HTMLMinifier") {
                Some(Minifier::HTMLMinifier)
            } else if str_eq(ident.as_str(), "Native") {
                Some(Minifier::Native)
            } else {
                None
            }
        },
        MinWithArg::Other => None,
    }
}

/// A byte at which a custom command line is split into arguments: an ASCII
/// space or a newline.
pub open spec fn is_command_separator(c: u8) -> bool {
    c == 0x20 || c == 0x0a
}

/// The byte ranges of the pieces of `b` between separators, scanning from
/// `i` inside a piece that began at `start`; empty pieces (between two
/// adjacent separators, or at either end) are kept, as `str::split` keeps
/// them.
pub open spec fn command_pieces_from(b: Seq<u8>, start: int, i: int) -> Seq<(int, int)>
    decreases b.len() - i,
{
    if i >= b.len() {
        seq![(start, b.len() as int)]
    } else if is_command_separator(b[i]) {
        seq![(start, i)] + command_pieces_from(b, i + 1, i + 1)
    } else {
        command_pieces_from(b, start, i + 1)
    }
}

/// The byte ranges of the arguments of the command line `b`.
pub open spec fn command_pieces(b: Seq<u8>) -> Seq<(int, int)> {
    command_pieces_from(b, 0, 0)
}

/// The UTF-8 bytes of each string of `v`.
pub open spec fn strings_bytes(v: Seq<String>) -> Seq<Seq<u8>> {
    v.map_values(|s: String| encode_utf8(s@))
}

/// The arguments of the command line `command`: its pieces between spaces
/// and newlines, each as its own string (`command.split([' ', '\n'])`).
pub fn split_command(command: &str) -> (r: Vec<String>)
    ensures
        ({
            let b = command.spec_bytes();
            let p = command_pieces(b);
            &&& r@.len() == p.len()
            &&& forall|k: int| 0 <= k < p.len() ==> encode_utf8((#[trigger] r@[k])@) == b.subrange(p[k].0, p[k].1)
        }),
{
    let b = str_bytes(command);
    let ghost bs = command.spec_bytes();
    proof {
        encode_utf8_valid_utf8(command@);
        is_char_boundary_start_end_of_seq(bs);
    }
    let len = b.len();
    let mut out: Vec<String> = Vec::new();
    let mut start: usize = 0;
    let mut i: usize = 0;
    while i < len
        invariant
            b@ == bs,
            bs == command.spec_bytes(),
            valid_utf8(bs),
            len == bs.len(),
            start <= i <= len,
            is_char_boundary(bs, start as int),
            ({
                let p = command_pieces(bs);
                let rest = command_pieces_from(bs, start as int, i as int);
                &&& p.len() == out@.len() + rest.len()
                &&& p.skip(out@.len() as int) == rest
                &&& forall|k: int| 0 <= k < out@.len() ==> encode_utf8((#[trigger] out@[k])@) == bs.subrange(p[k].0, p[k].1)
            }),
        decreases len - i,
    {
        if b[i] == 0x20 || b[i] == 0x0a {
            let ghost p = command_pieces(bs);
            let ghost k = out@.len() as int;
            proof {
                lemma_boundary_at_ascii(bs, i as int);
                let rest = command_pieces_from(bs, start as int, i as int);
                assert(rest == seq![(start as int, i as int)] + command_pieces_from(bs, i + 1, i + 1));
                assert(p.skip(k)[0] == p[k]);
                assert(p.skip(k + 1) =~= rest.drop_first());
            }
            let piece = substring(command, start, i);
            out.push(piece);
            proof {
                lemma_boundary_after_ascii(bs, i as int);
                assert forall|m: int| 0 <= m < out@.len() implies encode_utf8((#[trigger] out@[m])@) == bs.subrange(p[m].0, p[m].1) by {
                    if m < k {
                        assert(out@[m] == out@.drop_last()[m]);
                    }
                }
            }
            start = i + 1;
        }
        i = i + 1;
    }
    let ghost p = command_pieces(bs);
    let ghost k = out@.len() as int;
    proof {
        assert(command_pieces_from(bs, start as int, len as int) == seq![(start as int, len as int)]);
        assert(p.skip(k)[0] == p[k]);
    }
    let piece = substring(command, start, len);
    out.push(piece);
    proof {
        assert forall|m: int| 0 <= m < out@.len() implies encode_utf8((#[trigger] out@[m])@) == bs.subrange(p[m].0, p[m].1) by {
            if m < k {
                assert(out@[m] == out@.drop_last()[m]);
            }
        }
    }
    out
}

/// The characters of each string of `v`.
pub open spec fn arg_views(v: Seq<String>) -> Seq<Seq<char>> {
    v.map_values(|s: String| s@)
}

/// The command line of the `html-minifier` CLI for `input` and `output`:
/// `html-minifier --collapse-whitespace <input> -o <output>`.
pub fn html_minifier_command(input: &str, output: &str) -> (r: Vec<String>)
    ensures
        arg_views(r@) == seq!["html-minifier"@, "--collapse-whitespace"@, input@, "-o"@, output@],
{
    let mut r: Vec<String> = Vec::new();
    r.push(String::from_str("html-minifier"));
    r.push(String::from_str("--collapse-whitespace"));
    r.push(String::from_str(input));
    r.push(String::from_str("-o"));
    r.push(String::from_str(output));
    assert(arg_views(r@) =~= seq!["html-minifier"@, "--collapse-whitespace"@, input@, "-o"@, output@]);
    r
}

/// The command line of a custom minifier command for `input` and `output`:
/// the command's arguments (`split_command`), then `<input> -o <output>`.
pub fn custom_command(command: &str, input: &str, output: &str) -> (r: Vec<String>)
    ensures
        ({
            let b = command.spec_bytes();
            let p = command_pieces(b);
            &&& r@.len() == p.len() + 3
            &&& forall|k: int| 0 <= k < p.len() ==> encode_utf8((#[trigger] r@[k])@) == b.subrange(p[k].0, p[k].1)
            &&& arg_views(r@).skip(p.len() as int) == seq![input@, "-o"@, output@]
        }),
{
    let mut r = split_command(command);
    let ghost n = r@.len();
    let ghost first = r@;
    r.push(String::from_str(input));
    r.push(String::from_str("-o"));
    r.push(String::from_str(output));
    proof {
        assert forall|k: int| 0 <= k < n implies r@[k] == first[k] by {}
        assert(arg_views(r@).skip(n as int) =~= seq![input@, "-o"@, output@]);
    }
    r
}

/// The command line that runs `minifier` on `input`, writing `output`, or
/// `None` for the native minifier, which runs in-process.
pub fn minifier_command(minifier: &Minifier, input: &str, output: &str) -> (r: Option<Vec<String>>)
    ensures
        match minifier@ {
            MinifierView::Native => r is None,
            MinifierView::HTMLMinifier => r matches Some(v) && arg_views(v@) == seq![
                "html-minifier"@,
                "--collapse-whitespace"@,
                input@,
                "-o"@,
                output@,
            ],
            MinifierView::Custom(c) | MinifierView::CustomUnchecked(c) => r matches Some(v) && {
                let b = encode_utf8(c);
                let p = command_pieces(b);
                &&& v@.len() == p.len() + 3
                &&& forall|k: int|
                    0 <= k < p.len() ==> encode_utf8((#[trigger] v@[k])@) == b.subrange(p[k].0, p[k].1)
                &&& arg_views(v@).skip(p.len() as int) == seq![input@, "-o"@, output@]
            },
        },
{
    match minifier {
        Minifier::HTMLMinifier => Some(html_minifier_command(input, output)),
        Minifier::Custom(c) => Some(custom_command(c.as_str(), input, output)),
        Minifier::CustomUnchecked(c) => Some(custom_command(c.as_str(), input, output)),
        Minifier::Native => None,
    }
}

/// Whether output of `minifier` on stderr is an error: it is for the
/// `html-minifier` CLI and for `Custom`, not for `CustomUnchecked` (nor for
/// the native minifier, which has no process).
pub fn stderr_is_fatal(minifier: &Minifier) -> (r: bool)
    ensures
        r == (minifier@ is HTMLMinifier || minifier@ is Custom),
{
    match minifier {
        Minifier::HTMLMinifier => true,
        Minifier::Custom(_) => true,
        Minifier::CustomUnchecked(_) => false,
        Minifier::Native => false,
    }
}

} // verus!
