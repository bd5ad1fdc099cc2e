//! Where minified templates are written, and how a rewritten include refers
//! to them.  Paths are held as UTF-8 strings; their components are read by
//! `std::path` and by the `pathdiff` crate, whose results depend on the
//! platform's path syntax and so are not stated here.

use vstd::prelude::*;
use vstd::string::StringExecFns;
use std::path::{Component, Path};

verus! {

/// A path separator on some platform: `/`, or `\\` (Windows).
pub open spec fn is_separator(c: char) -> bool {
    c == '/' || c == '\\'
}

/// `s` ends with `suffix`.
pub open spec fn ends_with(s: Seq<char>, suffix: Seq<char>) -> bool {
    suffix.len() <= s.len() && s.subrange(s.len() - suffix.len(), s.len() as int) == suffix
}

/// `s` holds no `?`.
pub open spec fn without_question_mark(s: Seq<char>) -> bool {
    forall|i: int| 0 <= i < s.len() ==> s[i] != '?'
}

/// `s` may start with a Windows verbatim prefix (`\\?\`, either separator).
pub open spec fn verbatim_like(s: Seq<char>) -> bool {
    s.len() >= 3 && is_separator(s[0]) && is_separator(s[1]) && s[2] == '?'
}

/// `r` is `path` after all of `base` and a separator, after all of `base`,
/// or after a leading part of `base` (which may be empty: `path` replaces
/// `base`).
pub open spec fn joined_or_replaced(base: Seq<char>, path: Seq<char>, r: Seq<char>) -> bool {
    exists|q: Seq<char>|
        #![trigger q + path]
        r == q + path && ((q.len() <= base.len() && base.take(q.len() as int) == q) || q == base.push('/')
            || q == base.push('\\'))
}

/// `s` starts with `prefix`.
pub open spec fn starts_with(s: Seq<char>, prefix: Seq<char>) -> bool {
    prefix.len() <= s.len() && s.take(prefix.len() as int) == prefix
}

/// `s` holds none of `:`, `\\` and `?`, the characters whose meaning in a
/// path differs between platforms.
pub open spec fn portable(s: Seq<char>) -> bool {
    forall|i: int| 0 <= i < s.len() ==> s[i] != ':' && s[i] != '\\' && s[i] != '?'
}

/// `s` is a relative path without a Windows prefix on every platform: it
/// does not start with a separator (which every root and every prefix but
/// a drive does), nor with a drive letter and `:`.
pub open spec fn plain_relative(s: Seq<char>) -> bool {
    &&& !(s.len() >= 2 && s[1] == ':')
    &&& !(s.len() > 0 && is_separator(s[0]))
}

/// `s` has no Windows prefix: it starts with neither two separators nor a
/// drive letter and `:`.
pub open spec fn without_prefix(s: Seq<char>) -> bool {
    !(s.len() >= 2 && is_separator(s[0]) && is_separator(s[1])) && !(s.len() >= 2 && s[1] == ':')
}

/// `r` is `path` appended to `base`: right after `base` where `base` is
/// empty or ends with `/`; otherwise after `base` and a separator, which
/// may be left out only where `base` ends with `\\` or is a drive such as
/// `C:`.
pub open spec fn appended(base: Seq<char>, path: Seq<char>, r: Seq<char>) -> bool {
    if base.len() == 0 || base.last() == '/' {
        r == base + path
    } else if base.last() == '\\' || (base.len() == 2 && base[1] == ':') {
        r == base + path || r == base.push('/') + path || r == base.push('\\') + path
    } else {
        r == base.push('/') + path || r == base.push('\\') + path
    }
}

/// A non-empty path that ends in a file name on every platform: it ends in
/// neither a separator nor `.`, holds no `:`, and does not start with two
/// separators (so it has no Windows prefix).
pub open spec fn simple_file_path(s: Seq<char>) -> bool {
    &&& s.len() > 0
    &&& !is_separator(s.last())
    &&& s.last() != '.'
    &&& forall|i: int| 0 <= i < s.len() ==> s[i] != ':'
    &&& !(s.len() >= 2 && is_separator(s[0]) && is_separator(s[1]))
}

/// `s` holds only `/` and `.`.
pub open spec fn only_slash_dot(s: Seq<char>) -> bool {
    forall|i: int| 0 <= i < s.len() ==> s[i] == '/' || s[i] == '.'
}

/// `path` is `dir`, then `mid` (only `/` and `.`), then a non-empty file
/// name without `/`; what comes before the file name is empty or ends with
/// `/`.
pub open spec fn dir_then_name(path: Seq<char>, dir: Seq<char>, mid: Seq<char>) -> bool {
    &&& starts_with(path, dir + mid)
    &&& only_slash_dot(mid)
    &&& ((dir + mid).len() == 0 || (dir + mid).last() == '/')
    &&& (dir + mid).len() < path.len()
    &&& forall|i: int| (dir + mid).len() <= i < path.len() ==> path[i] != '/'
}

/// The parent of `path` (`Path::parent`): `path` without its final
/// component, if it has one.  Claimed: the parent is a leading part of
/// `path`; for a `portable` `simple_file_path` there is one, and only `/`
/// and `.` stand between it and the file name (the separators and `.`
/// components that `Path::components` passes over).  Which part it is on
/// other paths depends on the platform's path syntax and is not stated.
#[verifier::external_body]
pub(crate) fn path_parent(path: &str) -> (r: Option<String>)
    ensures
        r matches Some(p) ==> p@.len() <= path@.len() && path@.take(p@.len() as int) == p@,
        simple_file_path(path@) && portable(path@) ==> r is Some && exists|mid: Seq<char>|
            dir_then_name(path@, r->Some_0@, mid),
{
    Path::new(path).parent().map(|p| p.to_string_lossy().into_owned())
}

/// The final component of `path` (`Path::file_name`), if it has one.
/// Claimed: a file name is not empty; a `simple_file_path` has one, at its
/// end, holding no `/`, and it is all of the path or follows a separator.
/// Whether `\\` is a separator depends on the platform and is not stated,
/// nor is the result on other paths.
#[verifier::external_body]
pub(crate) fn path_file_name(path: &str) -> (r: Option<String>)
    ensures
        r matches Some(f) ==> f@.len() > 0,
        simple_file_path(path@) ==> (r matches Some(f) && ends_with(path@, f@) && forall|i: int|
            0 <= i < f@.len() ==> f@[i] != '/'),
        simple_file_path(path@) ==> r is Some && (r->Some_0@.len() == path@.len() || is_separator(
            path@[path@.len() - r->Some_0@.len() - 1],
        )),
{
    Path::new(path).file_name().map(|n| n.to_string_lossy().into_owned())
}

/// `base` extended with `path` (`Path::join`, as `PathBuf::push` extends).
/// Claimed, unless `base` may start with a Windows verbatim prefix (where
/// `push` normalises the path): the result is `path` after `base` and a
/// separator where one is needed, or `path` replacing `base` but for its
/// Windows prefix; a `plain_relative` path is appended; a path that starts
/// with `/` replaces a `base` without a Windows prefix (it is absolute, or
/// on Windows has a root and no prefix).  Which separator is written, and
/// the result in the other cases, depend on the platform and are not
/// stated.
#[verifier::external_body]
pub(crate) fn path_join(base: &str, path: &str) -> (r: String)
    ensures
        !verbatim_like(base@) ==> joined_or_replaced(base@, path@, r@),
        !verbatim_like(base@) && plain_relative(path@) ==> appended(base@, path@, r@),
        without_prefix(base@) && path@.len() > 0 && path@[0] == '/' ==> r@ == path@,
{
    Path::new(base).join(path).to_string_lossy().into_owned()
}

/// Whether `path` is absolute (`Path::is_absolute`).  Claimed: a
/// `plain_relative` path is not (absolute paths start with `/` on Unix and
/// with a prefix on Windows).  Other paths depend on the platform and are
/// not stated.
#[verifier::external_body]
pub(crate) fn path_is_absolute(path: &str) -> (r: bool)
    ensures
        plain_relative(path@) ==> !r,
{
    Path::new(path).is_absolute()
}

/// `s` is a `portable` path from the root: it starts with one `/`.
pub open spec fn rooted_portable(s: Seq<char>) -> bool {
    portable(s) && s.len() > 0 && s[0] == '/' && without_prefix(s)
}

/// The pieces of `s` between separators, in order, empty ones included.
pub open spec fn path_pieces(s: Seq<char>) -> Seq<Seq<char>>
    decreases s.len(),
{
    if s.len() == 0 {
        seq![Seq::<char>::empty()]
    } else {
        let p = path_pieces(s.drop_last());
        if is_separator(s.last()) {
            p.push(Seq::<char>::empty())
        } else {
            p.update(p.len() - 1, p.last().push(s.last()))
        }
    }
}

/// The names of the path `s`, in order: the pieces between separators,
/// leaving out empty pieces and `.` (what `Path::components` gives of a
/// path without a Windows prefix, besides its root).
pub open spec fn path_names(s: Seq<char>) -> Seq<Seq<char>> {
    path_pieces(s).filter(|n: Seq<char>| n.len() > 0 && n != seq!['.'])
}

/// The names `ns` of a path from the root with each `..` taking away the
/// name before it (nothing above the root).
pub open spec fn resolved_names(ns: Seq<Seq<char>>) -> Seq<Seq<char>>
    decreases ns.len(),
{
    if ns.len() == 0 {
        seq![]
    } else {
        let r = resolved_names(ns.drop_last());
        if ns.last() == seq!['.', '.'] {
            if r.len() > 0 {
                r.drop_last()
            } else {
                r
            }
        } else {
            r.push(ns.last())
        }
    }
}

/// No name of `s` is `..`.
pub open spec fn without_parent_names(s: Seq<char>) -> bool {
    forall|i: int| 0 <= i < path_names(s).len() ==> #[trigger] path_names(s)[i] != seq!['.', '.']
}

/// The path of `path` relative to the directory `base`
/// (`pathdiff::diff_paths`), or `None` where there is none.  Claimed: for
/// two `rooted_portable` paths (which split alike on every platform, root
/// first) a result is relative: the shared root is skipped, and the result
/// is made of `..` and names only, so it does not start with a separator.
/// Where moreover no name of `base` is `..` (the one case `diff_paths`
/// gives up on), there is a result, and `base` followed by it names
/// `path`: the shared leading names are skipped, a `..` stands for each
/// remaining name of `base`, then come the remaining names of `path`.
/// Which separator the result is written with depends on the platform and
/// is not stated.
#[verifier::external_body]
pub(crate) fn relative_path(path: &str, base: &str) -> (r: Option<String>)
    ensures
        rooted_portable(path@) && rooted_portable(base@) ==> (r matches Some(p) ==> !(p@.len() > 0
            && is_separator(p@[0]))),
        rooted_portable(path@) && rooted_portable(base@) && without_parent_names(base@) ==> r is Some
            && resolved_names(path_names(base@) + path_names(r->Some_0@)) == resolved_names(path_names(path@)),
{
    pathdiff::diff_paths(path, base).map(|p| p.to_string_lossy().into_owned())
}

/// One component of a path, as `std::path::Component` tells them apart.
pub enum PathPart {
    /// A Windows prefix, such as `C:`.
    Prefix,
    /// The root separator.
    Root,
    /// `.`
    Current,
    /// `..`
    Parent,
    /// A name.
    Normal(String),
}

/// The components of `path` (`Path::components`), in order.  Claimed: a
/// name is a non-empty part of `path` without `/` (a separator on every
/// platform).  How `path` splits depends on the platform's path syntax and
/// is not stated.
#[verifier::external_body]
pub(crate) fn path_components(path: &str) -> (r: Vec<PathPart>)
    ensures
        forall|j: int|
            0 <= j < r@.len() ==> ((#[trigger] r@[j]) matches PathPart::Normal(n) ==> is_infix(n@, path@)
                && n@.len() > 0 && forall|k: int| 0 <= k < n@.len() ==> n@[k] != '/'),
{
    Path::new(path).components().map(|c| match c {
        Component::Prefix(_) => PathPart::Prefix,
        Component::RootDir => PathPart::Root,
        Component::CurDir => PathPart::Current,
        Component::ParentDir => PathPart::Parent,
        Component::Normal(n) => PathPart::Normal(n.to_string_lossy().into_owned()),
    }).collect()
}

/// What is joined onto a base without `?`, from a part without `?`, has no
/// `?` and ends with that part.
pub proof fn lemma_joined_or_replaced(base: Seq<char>, path: Seq<char>, r: Seq<char>)
    requires
        joined_or_replaced(base, path, r),
        without_question_mark(base),
        without_question_mark(path),
    ensures
        without_question_mark(r),
        ends_with(r, path),
        !verbatim_like(r),
{
    let q = choose|q: Seq<char>|
        #![trigger q + path]
        r == q + path && ((q.len() <= base.len() && base.take(q.len() as int) == q) || q == base.push('/')
            || q == base.push('\\'));
    assert forall|i: int| 0 <= i < r.len() implies r[i] != '?' by {
        if i < q.len() {
            assert(r[i] == q[i]);
            if q.len() <= base.len() && base.take(q.len() as int) == q {
                assert(q[i] == base[i]);
            } else if i < base.len() {
                assert(q[i] == base[i]);
            }
        } else {
            assert(r[i] == path[i - q.len()]);
        }
    }
    assert(r.subrange(r.len() - path.len(), r.len() as int) =~= path);
}

/// The file name of a minified template: `name` followed by `.min`.
pub fn minified_name(name: &str) -> (r: String)
    ensures
        r@ == name@ + ".min"@,
{
    let mut r = String::from_str(name);
    r.append(".min");
    r
}

/// Where the minified form of the template `name`, found next to the
/// template at `template_path`, is written under the directory `tmp`: `tmp`,
/// then the directory part of `template_path` (`output_directory`), then
/// `name` with `.min` appended.
///
/// Where neither `tmp` nor `template_path` holds a `?`, the result ends
/// with `name` and `.min`; where moreover `template_path` is `portable` and
/// `name` is `plain_relative`, it starts with `tmp`.
pub fn component_output_path(tmp: &str, template_path: &str, name: &str) -> (r: String)
    ensures
        without_question_mark(tmp@) && without_question_mark(template_path@) ==> ends_with(
            r@,
            name@ + ".min"@,
        ),
        without_question_mark(tmp@) && portable(template_path@) && plain_relative(name@) ==> starts_with(
            r@,
            tmp@,
        ),
        without_question_mark(tmp@) && simple_file_path(template_path@) && portable(template_path@)
            && plain_relative(name@) ==> exists|d: Seq<char>, mid: Seq<char>, q: Seq<char>|
            #![trigger dir_then_name(template_path@, d, mid), placed_under(tmp@, strip_root(d), q)]
            dir_then_name(template_path@, d, mid) && placed_under(tmp@, strip_root(d), q) && appended(
                q,
                name@ + ".min"@,
                r@,
            ),
{
    let out = output_directory(tmp, template_path);
    let file = minified_name(name);
    let r = path_join(out.as_str(), file.as_str());
    proof {
        reveal_strlit(".min");
        if without_question_mark(tmp@) && without_question_mark(template_path@) {
            let q = choose|q: Seq<char>|
                #![trigger q + file@]
                r@ == q + file@ && ((q.len() <= out@.len() && out@.take(q.len() as int) == q) || q
                    == out@.push('/') || q == out@.push('\\'));
            assert(r@.subrange(r@.len() - file@.len(), r@.len() as int) =~= file@);
        }
        if without_question_mark(tmp@) && portable(template_path@) && plain_relative(name@) {
            assert(without_question_mark(template_path@));
            assert(plain_relative(file@)) by {
                if name@.len() >= 2 {
                    assert(file@[1] == name@[1]);
                } else if name@.len() == 1 {
                    assert(file@[1] == '.');
                } else {
                    assert(file@[1] == 'm');
                }
                if name@.len() == 0 {
                    assert(file@[0] == '.');
                } else {
                    assert(file@[0] == name@[0]);
                }
            }
            lemma_appended(out@, file@, r@);
            lemma_starts_with_trans(r@, out@, tmp@);
        }
    }
    r
}

/// What is appended onto `base` starts with `base` and ends with what was
/// appended.
proof fn lemma_appended(base: Seq<char>, path: Seq<char>, r: Seq<char>)
    requires
        appended(base, path, r),
    ensures
        starts_with(r, base),
        ends_with(r, path),
{
    if r == base + path {
        assert(r.take(base.len() as int) =~= base);
        assert(r.subrange(r.len() - path.len(), r.len() as int) =~= path);
    } else if r == base.push('/') + path {
        assert(r.take(base.len() as int) =~= base);
        assert(r.subrange(r.len() - path.len(), r.len() as int) =~= path);
    } else {
        assert(r.take(base.len() as int) =~= base);
        assert(r.subrange(r.len() - path.len(), r.len() as int) =~= path);
    }
}

/// Starting with a text that starts with `p` is starting with `p`.
proof fn lemma_starts_with_trans(a: Seq<char>, b: Seq<char>, p: Seq<char>)
    requires
        starts_with(a, b),
        starts_with(b, p),
    ensures
        starts_with(a, p),
{
    assert forall|i: int| 0 <= i < p.len() implies a.take(p.len() as int)[i] == p[i] by {
        assert(a[i] == a.take(b.len() as int)[i]);
        assert(b[i] == b.take(p.len() as int)[i]);
    }
    assert(a.take(p.len() as int) =~= p);
}

/// A part of a `portable` text is `portable`.
proof fn lemma_infix_portable(part: Seq<char>, whole: Seq<char>)
    requires
        is_infix(part, whole),
        portable(whole),
    ensures
        portable(part),
{
    let k = choose|k: int| 0 <= k && k + part.len() <= whole.len() && #[trigger] whole.subrange(k, k + part.len()) == part;
    assert forall|i: int| 0 <= i < part.len() implies part[i] != ':' && part[i] != '\\' && part[i] != '?' by {
        assert(part[i] == whole.subrange(k, k + part.len())[i]);
    }
}

/// A leading part of a text is a part of it.
proof fn lemma_prefix_infix(part: Seq<char>, whole: Seq<char>)
    requires
        starts_with(whole, part),
    ensures
        is_infix(part, whole),
{
    assert(whole.subrange(0, 0 + part.len() as int) =~= whole.take(part.len() as int));
}

/// `s` without the `/` it starts with.
pub open spec fn strip_root(s: Seq<char>) -> Seq<char>
    decreases s.len(),
{
    if s.len() > 0 && s[0] == '/' {
        strip_root(s.drop_first())
    } else {
        s
    }
}

/// `q` is the directory `rel` placed under `tmp`: `tmp` itself for an empty
/// `rel`, else `rel` appended to `tmp`.
pub open spec fn placed_under(tmp: Seq<char>, rel: Seq<char>, q: Seq<char>) -> bool {
    if rel.len() == 0 {
        q == tmp
    } else {
        appended(tmp, rel, q)
    }
}

/// Whether `s` is `plain_relative`.
fn is_plain_relative_str(s: &str) -> (r: bool)
    ensures
        r == plain_relative(s@),
{
    let n = vstd::string::StrSliceExecFns::unicode_len(s);
    if n > 0 {
        let c = vstd::string::StrSliceExecFns::get_char(s, 0);
        if c == '/' || c == '\\' {
            return false;
        }
    }
    !(n >= 2 && vstd::string::StrSliceExecFns::get_char(s, 1) == ':')
}

/// `s` without the `/` it starts with (`strip_root`).
fn strip_leading_slashes(s: &str) -> (r: String)
    ensures
        r@ == strip_root(s@),
        r@.len() == 0 || r@[0] != '/',
        is_infix(r@, s@),
{
    let n = vstd::string::StrSliceExecFns::unicode_len(s);
    let mut i: usize = 0;
    assert(s@.skip(0) =~= s@);
    while i < n && vstd::string::StrSliceExecFns::get_char(s, i) == '/'
        invariant
            n == s@.len(),
            i <= n,
            strip_root(s@.skip(i as int)) == strip_root(s@),
        decreases n - i,
    {
        assert(s@.skip(i as int).drop_first() =~= s@.skip(i + 1));
        i = i + 1;
    }
    let r = String::from_str(vstd::string::StrSliceExecFns::substring_char(s, i, n));
    proof {
        assert(r@ =~= s@.skip(i as int));
        assert(s@.subrange(i as int, i + r@.len()) =~= r@);
    }
    r
}

/// The directory under `tmp` that mirrors the directory part of `path`:
/// `tmp` with the parent of `path` appended, as it is written, where that
/// parent (for a parent from the root, what follows the root) is
/// `portable` or `plain_relative`; otherwise `tmp` with the parent's components joined onto it in
/// order, leaving out a root and a Windows prefix, so that an absolute
/// parent lands under `tmp` too; `tmp` itself when `path` has no parent.
/// Where `tmp` holds no `?` and `path` is `portable`, the result starts
/// with `tmp`; for a `simple_file_path` it is the directory before the
/// file name placed under `tmp`.
fn output_directory(tmp: &str, path: &str) -> (r: String)
    ensures
        without_question_mark(tmp@) && without_question_mark(path@) ==> without_question_mark(r@),
        without_question_mark(tmp@) && portable(path@) ==> starts_with(r@, tmp@),
        without_question_mark(tmp@) && simple_file_path(path@) && portable(path@) ==> exists|
            d: Seq<char>,
            mid: Seq<char>,
        | #![trigger dir_then_name(path@, d, mid)]
            dir_then_name(path@, d, mid) && placed_under(tmp@, strip_root(d), r@),
{
    let mut out = String::from_str(tmp);
    proof {
        assert(out@.take(tmp@.len() as int) =~= tmp@);
    }
    let parent = match path_parent(path) {
        Some(parent) => parent,
        None => return out,
    };
    let ghost clean = without_question_mark(tmp@) && without_question_mark(path@);
    let ghost portable_path = without_question_mark(tmp@) && portable(path@);
    proof {
        if clean {
            assert forall|i: int| 0 <= i < parent@.len() implies parent@[i] != '?' by {
                assert(parent@[i] == path@.take(parent@.len() as int)[i]);
            }
        }
        if portable(path@) {
            lemma_prefix_infix(parent@, path@);
            lemma_infix_portable(parent@, path@);
        }
    }
    let rel = strip_leading_slashes(parent.as_str());
    proof {
        if portable(parent@) {
            lemma_infix_portable(rel@, parent@);
        }
    }
    if is_plain_relative_str(rel.as_str()) {
        if vstd::string::StrSliceExecFns::unicode_len(rel.as_str()) == 0 {
            return out;
        }
        let r = path_join(tmp, rel.as_str());
        proof {
            if without_question_mark(tmp@) {
                lemma_appended(tmp@, rel@, r@);
            }
            if clean {
                lemma_infix_without_question_mark(rel@, parent@);
                lemma_joined_or_replaced(tmp@, rel@, r@);
            }
        }
        return r;
    }
    let parts = path_components(parent.as_str());
    let mut i: usize = 0;
    while i < parts.len()
        invariant
            i <= parts@.len(),
            clean ==> without_question_mark(out@),
            clean ==> without_question_mark(parent@),
            portable_path ==> clean,
            portable_path ==> portable(parent@),
            portable_path ==> starts_with(out@, tmp@),
            forall|j: int|
                0 <= j < parts@.len() ==> ((#[trigger] parts@[j]) matches PathPart::Normal(n) ==> is_infix(
                    n@,
                    parent@,
                ) && n@.len() > 0 && forall|k: int| 0 <= k < n@.len() ==> n@[k] != '/'),
        decreases parts@.len() - i,
    {
        match &parts[i] {
            PathPart::Normal(name) => {
                let next = path_join(out.as_str(), name.as_str());
                proof {
                    if clean {
                        lemma_infix_without_question_mark(name@, parent@);
                        lemma_joined_or_replaced(out@, name@, next@);
                    }
                    if portable_path {
                        lemma_infix_portable(name@, parent@);
                        assert(name@[0] != '/');
                        lemma_appended(out@, name@, next@);
                        lemma_starts_with_trans(next@, out@, tmp@);
                    }
                }
                out = next;
            },
            PathPart::Current => {
                let next = path_join(out.as_str(), ".");
                proof {
                    reveal_strlit(".");
                    if clean {
                        lemma_joined_or_replaced(out@, "."@, next@);
                    }
                    if portable_path {
                        lemma_appended(out@, "."@, next@);
                        lemma_starts_with_trans(next@, out@, tmp@);
                    }
                }
                out = next;
            },
            PathPart::Parent => {
                let next = path_join(out.as_str(), "..");
                proof {
                    reveal_strlit("..");
                    if clean {
                        lemma_joined_or_replaced(out@, ".."@, next@);
                    }
                    if portable_path {
                        lemma_appended(out@, ".."@, next@);
                        lemma_starts_with_trans(next@, out@, tmp@);
                    }
                }
                out = next;
            },
            PathPart::Root => {},
            PathPart::Prefix => {},
        }
        i = i + 1;
    }
    out
}

/// In a `portable` path, the file name (a tail without `/` that is all of
/// the path or follows a separator) is everything after position `a`,
/// where `a` starts a tail without `/` that is all of the path or follows
/// a `/`.
proof fn lemma_name_tail(path: Seq<char>, a: int, f: Seq<char>)
    requires
        portable(path),
        0 <= a < path.len(),
        forall|i: int| a <= i < path.len() ==> path[i] != '/',
        a == 0 || path[a - 1] == '/',
        ends_with(path, f),
        forall|i: int| 0 <= i < f.len() ==> f[i] != '/',
        f.len() == path.len() || is_separator(path[path.len() - f.len() - 1]),
    ensures
        f == path.skip(a),
{
    let n = path.len() as int;
    if f.len() > n - a {
        assert(a > 0);
        assert(f[a - 1 - (n - f.len())] == path.subrange(n - f.len(), n)[a - 1 - (n - f.len())]);
    } else if f.len() < n - a {
        let p = n - f.len() - 1;
        assert(path[p] != '\\');
        assert(path[p] != '/');
    }
    assert(f =~= path.skip(a));
}

/// `part` occurs in `whole`.
pub open spec fn is_infix(part: Seq<char>, whole: Seq<char>) -> bool {
    exists|k: int| 0 <= k && k + part.len() <= whole.len() && #[trigger] whole.subrange(k, k + part.len()) == part
}

/// A part of a text without `?` has none either.
proof fn lemma_infix_without_question_mark(part: Seq<char>, whole: Seq<char>)
    requires
        is_infix(part, whole),
        without_question_mark(whole),
    ensures
        without_question_mark(part),
{
    let k = choose|k: int| 0 <= k && k + part.len() <= whole.len() && #[trigger] whole.subrange(k, k + part.len()) == part;
    assert forall|i: int| 0 <= i < part.len() implies part[i] != '?' by {
        assert(part[i] == whole.subrange(k, k + part.len())[i]);
    }
}

/// Where the minified form of the template at `path` is written under the
/// directory `tmp`: the same relative structure under `tmp` (for an
/// absolute path, its structure below the root), with `.min` appended to
/// the file name (the directory alone when `path` has no file name).
///
/// Where neither `tmp` nor `path` holds a `?` and `path` is a
/// `simple_file_path`, the result ends with the file name that ends `path`,
/// followed by `.min`; where moreover `path` is `portable`, it starts with
/// `tmp`.
pub fn modify_template_path(tmp: &str, path: &str) -> (r: String)
    ensures
        simple_file_path(path@) && without_question_mark(tmp@) && without_question_mark(path@) ==> exists|
            f: Seq<char>,
        |
            #![trigger f + ".min"@]
            f.len() > 0 && ends_with(path@, f) && (forall|i: int| 0 <= i < f.len() ==> f[i] != '/')
                && ends_with(r@, f + ".min"@),
        simple_file_path(path@) && without_question_mark(tmp@) && portable(path@) ==> starts_with(
            r@,
            tmp@,
        ),
        simple_file_path(path@) && without_question_mark(tmp@) && portable(path@) ==> exists|
            d: Seq<char>,
            mid: Seq<char>,
            q: Seq<char>,
        |
            #![trigger dir_then_name(path@, d, mid), placed_under(tmp@, strip_root(d), q)]
            dir_then_name(path@, d, mid) && placed_under(tmp@, strip_root(d), q) && appended(
                q,
                path@.skip((d + mid).len() as int) + ".min"@,
                r@,
            ),
{
    let out = output_directory(tmp, path);
    match path_file_name(path) {
        Some(file_name) => {
            let file = minified_name(file_name.as_str());
            let r = path_join(out.as_str(), file.as_str());
            proof {
                reveal_strlit(".min");
                if simple_file_path(path@) && without_question_mark(tmp@) && without_question_mark(path@) {
                    let q = choose|q: Seq<char>|
                        #![trigger q + file@]
                        r@ == q + file@ && ((q.len() <= out@.len() && out@.take(q.len() as int) == q) || q
                            == out@.push('/') || q == out@.push('\\'));
                    assert(r@.subrange(r@.len() - file@.len(), r@.len() as int) =~= file@);
                    assert(file@ == file_name@ + ".min"@);
                }
                if simple_file_path(path@) && without_question_mark(tmp@) && portable(path@) {
                    let f = file_name@;
                    assert(is_infix(f, path@)) by {
                        assert(path@.subrange(path@.len() - f.len(), path@.len() - f.len() + f.len()) =~= path@.subrange(
                            path@.len() - f.len(),
                            path@.len() as int,
                        ));
                    }
                    lemma_infix_portable(f, path@);
                    assert(plain_relative(file@)) by {
                        assert forall|i: int| 0 <= i < file@.len() implies file@[i] != ':' by {
                            if i < f.len() {
                                assert(file@[i] == f[i]);
                            } else {
                                assert(file@[i] == ".min"@[i - f.len()]);
                            }
                        }
                        assert(file@[0] == f[0]);
                    }
                    lemma_appended(out@, file@, r@);
                    lemma_starts_with_trans(r@, out@, tmp@);
                    let (d, mid) = choose|d: Seq<char>, mid: Seq<char>|
                        #![trigger dir_then_name(path@, d, mid)]
                        dir_then_name(path@, d, mid) && placed_under(tmp@, strip_root(d), out@);
                    lemma_name_tail(path@, (d + mid).len() as int, f);
                    assert(file@ == path@.skip((d + mid).len() as int) + ".min"@);
                }
            }
            r
        },
        None => {
            proof {
                if simple_file_path(path@) {
                    assert(false);
                }
            }
            out
        },
    }
}

/// How a rewritten include refers to the minified component at `child`
/// from the directory `parent_dir` of the minified parent: the relative path
/// where one exists, else `child` itself.  Relative paths are what the
/// template compiler handles on every platform.
///
/// Where both paths are `rooted_portable`, the result is `child` itself or
/// a relative path, which starts with no separator; where moreover no name
/// of `parent_dir` is `..`, it is relative, and `parent_dir` followed by it
/// names `child`.
pub fn include_reference(child: &str, parent_dir: &str) -> (r: String)
    ensures
        rooted_portable(child@) && rooted_portable(parent_dir@) ==> r@ == child@ || !(r@.len() > 0
            && is_separator(r@[0])),
        rooted_portable(child@) && rooted_portable(parent_dir@) && without_parent_names(parent_dir@)
            ==> !(r@.len() > 0 && is_separator(r@[0])) && resolved_names(
            path_names(parent_dir@) + path_names(r@),
        ) == resolved_names(path_names(child@)),
{
    let relative = relative_path(child, parent_dir);
    include_reference_from(child, relative)
}

/// The reference to `child` given its path relative to the minified
/// parent's directory, if one exists: that relative path, else `child`.
pub fn include_reference_from(child: &str, relative: Option<String>) -> (r: String)
    ensures
        r@ == (match relative {
            Some(rel) => rel@,
            None => child@,
        }),
{
    match relative {
        Some(rel) => rel,
        None => String::from_str(child),
    }
}

/// Where templates named by a relative path are looked up.
pub const TEMPLATE_DIR: &'static str = "./templates";

/// `p` is what the template path `x` resolves to: it ends with `x`; a
/// `plain_relative` `x` lies under `./templates`, after a separator; an `x`
/// that starts with `/` is kept as it is.
pub open spec fn resolved_template_path(x: Seq<char>, p: Seq<char>) -> bool {
    &&& ends_with(p, x)
    &&& plain_relative(x) ==> (p == TEMPLATE_DIR@.push('/') + x || p == TEMPLATE_DIR@.push('\\') + x)
    &&& (x.len() > 0 && x[0] == '/') ==> p == x
}

/// The file a template path from `#[template(path = ...)]` refers to: an
/// absolute path as it is, a relative one under `./templates`.
pub fn resolve_template_path(path: &str) -> (r: String)
    ensures
        resolved_template_path(path@, r@),
{
    proof {
        reveal_strlit("./templates");
    }
    if path_is_absolute(path) {
        let r = String::from_str(path);
        assert(r@.subrange(0, r@.len() as int) =~= r@);
        r
    } else {
        let r = path_join(TEMPLATE_DIR, path);
        proof {
            let q = choose|q: Seq<char>|
                #![trigger q + path@]
                r@ == q + path@ && ((q.len() <= TEMPLATE_DIR@.len() && TEMPLATE_DIR@.take(q.len() as int)
                    == q) || q == TEMPLATE_DIR@.push('/') || q == TEMPLATE_DIR@.push('\\'));
            assert(r@.subrange(r@.len() - path@.len(), r@.len() as int) =~= path@);
            assert(TEMPLATE_DIR@.last() == 's');
        }
        r
    }
}

} // verus!
