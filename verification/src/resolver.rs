//! The resolution orchestrator: one `Resolver` per file being processed.  A
//! call to `resolve` runs the import map, qualifies the target against the
//! current file, applies the policy rewrites, canonicalizes, computes the
//! output path relative to the current file's directory, applies the
//! extension and hash-placeholder policy, and records the dependency.
use vstd::prelude::*;
use crate::convert::{chars_of, string_from_chars};
use crate::import_map::{
    cpair_views, cscope_views, im_resolve, pair_views, scope_views, ImportHashMap, ImportMap,
};
use crate::paths::{
    canon_local, canon_local_exec, dot, dotdot, parent_dir, parent_dir_exec, rel_diff,
    rel_diff_exec, norm_str, norm_str_exec, starts_dot_slash, starts_dotdot_slash, starts_slash,
    starts_slash_exec,
};
use crate::policy::{apply_aleph, apply_aleph_exec, apply_react_pin, apply_react_pin_exec};
use crate::remote::{
    canon_remote, canon_remote_exec, ext_of, ext_of_exec, is_remote_chars, js_ext, lit_js,
    parse_url_exec, render_url, render_url_exec, spec_is_remote, spec_parse_url, SpecUrl, UrlParts,
};
use crate::text::{
    copy_vec, extend_vec, rfind_before, srfind, strip_rep_prefix,
    strip_rep_prefix_exec, strip_rep_suffix, strip_rep_suffix_exec, subvec,
};

verus! {

/// A recorded dependency of the file being processed.
#[derive(Clone, Debug, PartialEq, Eq)]
pub struct DependencyDescriptor {
    /// the fully-qualified, policy-rewritten specifier
    pub specifier: String,
    /// whether the dependency comes from a dynamic import
    pub is_dynamic: bool,
}

/// An inline style collected while transforming a file.
#[derive(Clone, Debug, PartialEq, Eq)]
pub struct InlineStyle {
    pub style_type: String,
    pub quasis: Vec<String>,
    pub exprs: Vec<String>,
}

/// The single error kind: a malformed specifier or URL.
#[derive(Clone, Copy, Debug, PartialEq, Eq)]
pub enum ResolveError {
    MalformedUrl,
}

/// The fixed-length sentinel later replaced by a real content hash.
pub open spec fn placeholder() -> Seq<char> {
    seq!['x', 'x', 'x', 'x', 'x', 'x', 'x', 'x', 'x']
}

pub fn lit_placeholder() -> (r: Vec<char>)
    ensures
        r@ == placeholder(),
{
    let mut r: Vec<char> = Vec::new();
    let mut i: usize = 0;
    while i < 9
        invariant
            i <= 9,
            r@.len() == i,
            forall|k: int| 0 <= k < i ==> r@[k] == 'x',
        decreases 9 - i,
    {
        r.push('x');
        i = i + 1;
    }
    proof {
        assert(r@ =~= placeholder());
    }
    r
}

/// The hash placeholder as text, nine repeated characters.
pub fn hash_placeholder() -> (r: String)
    ensures
        r@ == placeholder(),
{
    let v = lit_placeholder();
    string_from_chars(&v)
}

pub open spec fn opt_chars(o: Option<String>) -> Option<Seq<char>> {
    match o {
        Option::Some(s) => Option::Some(s@),
        Option::None => Option::None,
    }
}

pub open spec fn str_views(xs: Seq<String>) -> Seq<Seq<char>> {
    xs.map_values(|s: String| s@)
}

pub open spec fn dep_views(ds: Seq<DependencyDescriptor>) -> Seq<(Seq<char>, bool)> {
    ds.map_values(|d: DependencyDescriptor| (d.specifier@, d.is_dynamic))
}

/// The module identifiers with duplicates dropped, keeping first occurrences
/// in order.
pub open spec fn dedup_chars_from(xs: Seq<Seq<char>>, i: int, acc: Seq<Seq<char>>) -> Seq<
    Seq<char>,
>
    decreases xs.len() - i,
    when 0 <= i <= xs.len()
{
    if i >= xs.len() {
        acc
    } else if acc.contains(xs[i]) {
        dedup_chars_from(xs, i + 1, acc)
    } else {
        dedup_chars_from(xs, i + 1, acc.push(xs[i]))
    }
}

pub open spec fn dedup_chars(xs: Seq<Seq<char>>) -> Seq<Seq<char>> {
    dedup_chars_from(xs, 0, Seq::empty())
}

/// The canonical cache path of a fully-qualified specifier: the local branch
/// for local paths, the remote branch for a parsed remote URL.
pub open spec fn spec_canonicalize(s: Seq<char>) -> Seq<char> {
    if spec_is_remote(s) {
        match spec_parse_url(s) {
            Option::Some(u) => canon_remote(u),
            Option::None => Seq::empty(),
        }
    } else {
        canon_local(s)
    }
}

/// Canonicalize a specifier held as characters; `None` on a malformed remote
/// URL.
pub fn canonicalize_chars(v: &Vec<char>) -> (r: Option<Vec<char>>)
    ensures
        match r {
            Some(c) => (!spec_is_remote(v@) || spec_parse_url(v@) is Some) && c@
                == spec_canonicalize(v@),
            None => spec_is_remote(v@) && spec_parse_url(v@) is None,
        },
{
    if is_remote_chars(v) {
        match parse_url_exec(v) {
            Option::Some(u) => Some(canon_remote_exec(&u)),
            Option::None => None,
        }
    } else {
        Some(canon_local_exec(v))
    }
}

/// The fully-qualified form of a mapped target: a remote target passes
/// through; under a remote current file the target replaces or is resolved
/// against the current URL's path; under a local current file the root and
/// alias prefixes are honored and a relative target is resolved against the
/// current file's directory.
pub open spec fn spec_qualify(
    specifier: Seq<char>,
    specifier_is_remote: bool,
    mapped: Seq<char>,
) -> Option<Seq<char>> {
    if spec_is_remote(mapped) {
        Option::Some(mapped)
    } else if specifier_is_remote {
        match spec_parse_url(specifier) {
            Option::None => Option::None,
            Option::Some(u) => {
                let newpath = if starts_slash(mapped) {
                    mapped
                } else {
                    seq!['/'] + norm_str(parent_dir(u.path) + seq!['/'] + mapped)
                };
                Option::Some(render_url(SpecUrl { path: newpath, ..u }))
            },
        }
    } else {
        if starts_slash(mapped) {
            Option::Some(mapped)
        } else if mapped.len() >= 2 && mapped[0] == '@' && mapped[1] == '/' {
            Option::Some(strip_rep_prefix(mapped, seq!['@']))
        } else if mapped.len() >= 2 && mapped[0] == '~' && mapped[1] == '/' {
            Option::Some(strip_rep_prefix(mapped, seq!['~']))
        } else {
            Option::Some(seq!['/'] + norm_str(parent_dir(specifier) + seq!['/'] + mapped))
        }
    }
}

/// The output path before the extension policy: the relative difference
/// between the target's canonical path and the current file's directory.
pub open spec fn spec_output_path(
    fixed: Seq<char>,
    specifier: Seq<char>,
    specifier_is_remote: bool,
) -> Option<Seq<char>> {
    if spec_is_remote(fixed) {
        match spec_parse_url(fixed) {
            Option::None => Option::None,
            Option::Some(uf) => {
                if specifier_is_remote {
                    match spec_parse_url(specifier) {
                        Option::None => Option::None,
                        Option::Some(us) => rel_diff(
                            canon_remote(uf),
                            parent_dir(canon_remote(us)),
                        ),
                    }
                } else {
                    rel_diff(canon_remote(uf), parent_dir(specifier))
                }
            },
        }
    } else {
        if specifier_is_remote {
            match spec_parse_url(specifier) {
                Option::None => Option::None,
                Option::Some(us) => {
                    let newpath = if starts_slash(fixed) {
                        fixed
                    } else {
                        seq!['/'] + norm_str(parent_dir(us.path) + seq!['/'] + fixed)
                    };
                    let rendered = render_url(SpecUrl { path: newpath, ..us });
                    match spec_parse_url(rendered) {
                        Option::None => Option::None,
                        Option::Some(u2) => rel_diff(
                            canon_remote(u2),
                            parent_dir(canon_remote(us)),
                        ),
                    }
                },
            }
        } else {
            if starts_slash(fixed) {
                rel_diff(fixed, parent_dir(specifier))
            } else {
                Option::Some(fixed)
            }
        }
    }
}

pub open spec fn is_script_ext(x: Seq<char>) -> bool {
    x == js_ext() || x == seq!['j', 's', 'x'] || x == seq!['t', 's'] || x == seq!['t', 's', 'x']
        || x == seq!['m', 'j', 's']
}

/// The extension and hash-placeholder policy on the computed output path: a
/// script extension is replaced by `js`, any other or missing extension is
/// kept; when neither side of the resolution is remote, the placeholder is
/// spliced in before the final `js`.
pub open spec fn spec_finalize(p: Seq<char>, both_local: bool) -> Seq<char> {
    let start = match srfind(p, p.len() as int, '/') {
        Option::None => 0,
        Option::Some(j) => j + 1,
    };
    let fname = p.skip(start);
    if fname.len() == 0 || fname == dot() || fname == dotdot() {
        p
    } else {
        match ext_of(fname) {
            Option::Some(x) => if is_script_ext(x) {
                p.take(start) + strip_rep_suffix(fname, x) + (if both_local {
                    placeholder() + seq!['.']
                } else {
                    Seq::<char>::empty()
                }) + js_ext()
            } else if both_local {
                p.take(start) + fname + seq!['.'] + placeholder() + seq!['.'] + js_ext()
            } else {
                p
            },
            Option::None => if both_local {
                p.take(start) + fname + seq!['.'] + placeholder() + seq!['.'] + js_ext()
            } else {
                p
            },
        }
    }
}

/// A path that does not already start with `./`, `../` or `/` gets `./`.
pub open spec fn spec_guard(p: Seq<char>) -> Seq<char> {
    if starts_dot_slash(p) || starts_dotdot_slash(p) || starts_slash(p) {
        p
    } else {
        seq!['.', '/'] + p
    }
}

fn is_script_ext_exec(x: &Vec<char>) -> (r: bool)
    ensures
        r == is_script_ext(x@),
{
    let r = (x.len() == 2 && x[0] == 'j' && x[1] == 's') || (x.len() == 3 && x[0] == 'j' && x[1]
        == 's' && x[2] == 'x') || (x.len() == 2 && x[0] == 't' && x[1] == 's') || (x.len() == 3
        && x[0] == 't' && x[1] == 's' && x[2] == 'x') || (x.len() == 3 && x[0] == 'm' && x[1]
        == 'j' && x[2] == 's');
    proof {
        if r {
            if x@.len() == 2 && x@[0] == 'j' {
                assert(x@ =~= js_ext());
            } else if x@.len() == 3 && x@[0] == 'j' {
                assert(x@ =~= seq!['j', 's', 'x']);
            } else if x@.len() == 2 && x@[0] == 't' {
                assert(x@ =~= seq!['t', 's']);
            } else if x@.len() == 3 && x@[0] == 't' {
                assert(x@ =~= seq!['t', 's', 'x']);
            } else {
                assert(x@ =~= seq!['m', 'j', 's']);
            }
        } else {
            if x@ == js_ext() || x@ == seq!['j', 's', 'x'] || x@ == seq!['t', 's'] || x@
                == seq!['t', 's', 'x'] || x@ == seq!['m', 'j', 's'] {
                assert(false);
            }
        }
    }
    r
}

fn finalize_exec(p: &Vec<char>, both_local: bool) -> (r: Vec<char>)
    ensures
        r@ == spec_finalize(p@, both_local),
{
    let start: usize = match rfind_before(p, p.len(), '/') {
        Option::None => 0,
        Option::Some(j) => j + 1,
    };
    let fname = subvec(p, start, p.len());
    proof {
        assert(fname@ =~= p@.skip(start as int));
    }
    let fname_is_dot = fname.len() == 1 && fname[0] == '.';
    let fname_is_dd = fname.len() == 2 && fname[0] == '.' && fname[1] == '.';
    proof {
        if fname_is_dot {
            assert(fname@ =~= dot());
        }
        if fname_is_dd {
            assert(fname@ =~= dotdot());
        }
        if !fname_is_dot && fname@ == dot() {
            assert(fname@.len() == 1 && fname@[0] == '.');
        }
        if !fname_is_dd && fname@ == dotdot() {
            assert(fname@.len() == 2 && fname@[0] == '.' && fname@[1] == '.');
        }
    }
    if fname.len() == 0 || fname_is_dot || fname_is_dd {
        return copy_vec(p);
    }
    let ext = ext_of_exec(&fname);
    match ext {
        Option::Some(x) => {
            if is_script_ext_exec(&x) {
                let stem = strip_rep_suffix_exec(&fname, &x);
                let mut r = subvec(p, 0, start);
                extend_vec(&mut r, &stem);
                if both_local {
                    let ph = lit_placeholder();
                    extend_vec(&mut r, &ph);
                    r.push('.');
                }
                let js = lit_js();
                extend_vec(&mut r, &js);
                proof {
                    assert(r@ =~= spec_finalize(p@, both_local));
                }
                r
            } else if both_local {
                let mut r = subvec(p, 0, start);
                extend_vec(&mut r, &fname);
                r.push('.');
                let ph = lit_placeholder();
                extend_vec(&mut r, &ph);
                r.push('.');
                let js = lit_js();
                extend_vec(&mut r, &js);
                proof {
                    assert(r@ =~= spec_finalize(p@, both_local));
                }
                r
            } else {
                copy_vec(p)
            }
        },
        Option::None => {
            if both_local {
                let mut r = subvec(p, 0, start);
                extend_vec(&mut r, &fname);
                r.push('.');
                let ph = lit_placeholder();
                extend_vec(&mut r, &ph);
                r.push('.');
                let js = lit_js();
                extend_vec(&mut r, &js);
                proof {
                    assert(r@ =~= spec_finalize(p@, both_local));
                }
                r
            } else {
                copy_vec(p)
            }
        },
    }
}

fn guard_exec(p: Vec<char>) -> (r: Vec<char>)
    ensures
        r@ == spec_guard(p@),
{
    let keep = (p.len() >= 2 && p[0] == '.' && p[1] == '/') || (p.len() >= 3 && p[0] == '.'
        && p[1] == '.' && p[2] == '/') || (p.len() >= 1 && p[0] == '/');
    if keep {
        p
    } else {
        let mut r: Vec<char> = Vec::new();
        r.push('.');
        r.push('/');
        extend_vec(&mut r, &p);
        proof {
            assert(r@ =~= seq!['.', '/'] + p@);
        }
        r
    }
}

/// What one resolution call computes from the session's state: the output
/// path, the fully-qualified specifier, and whether a dependency is
/// recorded; `None` when a URL on the way is malformed or the relative
/// difference does not exist.
pub open spec fn spec_resolve(r: Resolver, url: Seq<char>, rel: Option<Seq<char>>) -> Option<
    (Seq<char>, Seq<char>, bool),
> {
    let mapped = im_resolve(
        cpair_views(r.import_map.imports@),
        cscope_views(r.import_map.scopes@),
        r.specifier@,
        url,
    );
    match spec_qualify(r.specifier@, r.specifier_is_remote, mapped) {
        Option::None => Option::None,
        Option::Some(q) => {
            let fixed = apply_react_pin(
                opt_chars(r.react_version),
                apply_aleph(opt_chars(r.aleph_pkg_uri), q),
            );
            match spec_output_path(fixed, r.specifier@, r.specifier_is_remote) {
                Option::None => Option::None,
                Option::Some(p0) => {
                    let both_local = !spec_is_remote(fixed) && !r.specifier_is_remote;
                    let outp = spec_guard(spec_finalize(p0, both_local));
                    let record = match rel {
                        Option::Some(rv) => rv != dot(),
                        Option::None => true,
                    };
                    Option::Some((outp, fixed, record))
                },
            }
        },
    }
}

/// The path of a target resolved against the directory of a base path,
/// lexically normalized and made root-absolute.
fn against_dir_exec(base_path: &Vec<char>, target: &Vec<char>) -> (r: Vec<char>)
    ensures
        r@ == seq!['/'] + norm_str(parent_dir(base_path@) + seq!['/'] + target@),
{
    let pd = parent_dir_exec(base_path);
    let mut joined = pd;
    joined.push('/');
    extend_vec(&mut joined, target);
    proof {
        assert(joined@ =~= parent_dir(base_path@) + seq!['/'] + target@);
    }
    let normed = norm_str_exec(&joined);
    let mut np: Vec<char> = Vec::new();
    np.push('/');
    extend_vec(&mut np, &normed);
    proof {
        assert(np@ =~= seq!['/'] + norm_str(joined@));
    }
    np
}

fn qualify_exec(spec_c: &Vec<char>, specifier_is_remote: bool, mapped: Vec<char>) -> (r: Option<
    Vec<char>,
>)
    ensures
        match r {
            Some(q) => spec_qualify(spec_c@, specifier_is_remote, mapped@) == Some(q@),
            None => spec_qualify(spec_c@, specifier_is_remote, mapped@) is None,
        },
{
    if is_remote_chars(&mapped) {
        return Some(mapped);
    }
    if specifier_is_remote {
        match parse_url_exec(spec_c) {
            Option::None => None,
            Option::Some(u) => {
                let newpath: Vec<char> = if starts_slash_exec(&mapped) {
                    mapped
                } else {
                    against_dir_exec(&u.path, &mapped)
                };
                let nu = UrlParts { path: newpath, ..u };
                Some(render_url_exec(&nu))
            },
        }
    } else {
        if starts_slash_exec(&mapped) {
            Some(mapped)
        } else if mapped.len() >= 2 && mapped[0] == '@' && mapped[1] == '/' {
            let mut at: Vec<char> = Vec::new();
            at.push('@');
            assert(at@ =~= seq!['@']);
            Some(strip_rep_prefix_exec(&mapped, &at))
        } else if mapped.len() >= 2 && mapped[0] == '~' && mapped[1] == '/' {
            let mut tl: Vec<char> = Vec::new();
            tl.push('~');
            assert(tl@ =~= seq!['~']);
            Some(strip_rep_prefix_exec(&mapped, &tl))
        } else {
            Some(against_dir_exec(spec_c, &mapped))
        }
    }
}

#[verifier::rlimit(60)]
fn output_path_exec(fixed: &Vec<char>, spec_c: &Vec<char>, specifier_is_remote: bool) -> (r:
    Option<Vec<char>>)
    ensures
        match r {
            Some(p) => spec_output_path(fixed@, spec_c@, specifier_is_remote) == Some(p@),
            None => spec_output_path(fixed@, spec_c@, specifier_is_remote) is None,
        },
{
    if is_remote_chars(fixed) {
        match parse_url_exec(fixed) {
            Option::None => None,
            Option::Some(uf) => {
                let target = canon_remote_exec(&uf);
                let base: Vec<char>;
                if specifier_is_remote {
                    match parse_url_exec(spec_c) {
                        Option::None => {
                            return None;
                        },
                        Option::Some(us) => {
                            let cs = canon_remote_exec(&us);
                            base = parent_dir_exec(&cs);
                        },
                    }
                } else {
                    base = parent_dir_exec(spec_c);
                }
                rel_diff_exec(&target, &base)
            },
        }
    } else {
        if specifier_is_remote {
            match parse_url_exec(spec_c) {
                Option::None => None,
                Option::Some(us) => {
                    let cs = canon_remote_exec(&us);
                    let base = parent_dir_exec(&cs);
                    let newpath: Vec<char> = if starts_slash_exec(fixed) {
                        copy_vec(fixed)
                    } else {
                        against_dir_exec(&us.path, fixed)
                    };
                    let nu = UrlParts { path: newpath, ..us };
                    let rendered = render_url_exec(&nu);
                    match parse_url_exec(&rendered) {
                        Option::None => None,
                        Option::Some(u2) => {
                            let target = canon_remote_exec(&u2);
                            rel_diff_exec(&target, &base)
                        },
                    }
                },
            }
        } else {
            if starts_slash_exec(fixed) {
                let base = parent_dir_exec(spec_c);
                rel_diff_exec(fixed, &base)
            } else {
                Some(copy_vec(fixed))
            }
        }
    }
}

/// Everything of a session but its dependency log.
pub open spec fn same_config(a: Resolver, b: Resolver) -> bool {
    a.specifier == b.specifier && a.specifier_is_remote == b.specifier_is_remote
        && a.used_builtin_jsx_tags == b.used_builtin_jsx_tags && a.inline_styles == b.inline_styles
        && a.bundle_mode == b.bundle_mode && a.bundled_modules == b.bundled_modules && a.import_map
        == b.import_map && a.aleph_pkg_uri == b.aleph_pkg_uri && a.react_version == b.react_version
}

/// The resolution session of one file being processed.
pub struct Resolver {
    /// the specifier of the file being processed
    pub specifier: String,
    /// whether that specifier is a remote URL
    pub specifier_is_remote: bool,
    /// builtin JSX tags seen so far; kept by outside collaborators
    pub used_builtin_jsx_tags: Vec<String>,
    /// the ordered dependency log of this file
    pub dep_graph: Vec<DependencyDescriptor>,
    /// inline styles collected so far; kept by outside collaborators
    pub inline_styles: Vec<(String, InlineStyle)>,
    /// bundle mode
    pub bundle_mode: bool,
    /// identifiers of bundled modules, first occurrences in order
    pub bundled_modules: Vec<String>,
    /// the import map consulted first on every resolution
    pub import_map: ImportMap,
    /// the configured package base URI, when overridden
    pub aleph_pkg_uri: Option<String>,
    /// the pinned dependency version, when configured
    pub react_version: Option<String>,
}

/// The built-in default package base URI.
pub open spec fn aleph_default_uri() -> Seq<char> {
    crate::policy::aleph_origin()
}

impl Resolver {
    /// Start a session for one file.
    pub fn new(
        specifier: &str,
        import_map: ImportHashMap,
        aleph_pkg_uri: Option<String>,
        react_version: Option<String>,
        bundle_mode: bool,
        bundled_modules: Vec<String>,
    ) -> (r: Self)
        ensures
            r.specifier@ == specifier@,
            r.specifier_is_remote == spec_is_remote(specifier@),
            r.used_builtin_jsx_tags@.len() == 0,
            r.dep_graph@.len() == 0,
            r.inline_styles@.len() == 0,
            r.bundle_mode == bundle_mode,
            str_views(r.bundled_modules@) == dedup_chars(str_views(bundled_modules@)),
            cpair_views(r.import_map.imports@) == pair_views(import_map.imports@),
            cscope_views(r.import_map.scopes@) == scope_views(import_map.scopes@),
            opt_chars(r.aleph_pkg_uri) == opt_chars(aleph_pkg_uri),
            opt_chars(r.react_version) == opt_chars(react_version),
    {
        let sc = chars_of(specifier);
        let is_remote = is_remote_chars(&sc);
        let mut set: Vec<String> = Vec::new();
        let mut i: usize = 0;
        proof {
            assert(str_views(set@) =~= Seq::<Seq<char>>::empty());
        }
        while i < bundled_modules.len()
            invariant
                i <= bundled_modules@.len(),
                dedup_chars(str_views(bundled_modules@)) == dedup_chars_from(
                    str_views(bundled_modules@),
                    i as int,
                    str_views(set@),
                ),
            decreases bundled_modules@.len() - i,
        {
            proof {
                assert(str_views(bundled_modules@)[i as int] == bundled_modules@[i as int]@);
            }
            let mut found = false;
            let mut j: usize = 0;
            while j < set.len()
                invariant
                    i < bundled_modules@.len(),
                    j <= set@.len(),
                    found == exists|t: int|
                        0 <= t < j && str_views(set@)[t] == bundled_modules@[i as int]@,
                decreases set@.len() - j,
            {
                proof {
                    assert(str_views(set@)[j as int] == set@[j as int]@);
                }
                if set[j].eq(&bundled_modules[i]) {
                    found = true;
                }
                j = j + 1;
            }
            proof {
                if found {
                    assert(str_views(set@).contains(bundled_modules@[i as int]@));
                } else {
                    if str_views(set@).contains(bundled_modules@[i as int]@) {
                        let t = choose|t: int|
                            0 <= t < str_views(set@).len() && str_views(set@)[t]
                                == bundled_modules@[i as int]@;
                        assert(false);
                    }
                }
            }
            if !found {
                let s2 = bundled_modules[i].clone();
                proof {
                    assert(str_views(set@.push(s2)) =~= str_views(set@).push(
                        bundled_modules@[i as int]@,
                    ));
                }
                set.push(s2);
            }
            i = i + 1;
        }
        Resolver {
            specifier: string_from_chars(&sc),
            specifier_is_remote: is_remote,
            used_builtin_jsx_tags: Vec::new(),
            dep_graph: Vec::new(),
            inline_styles: Vec::new(),
            bundle_mode,
            bundled_modules: set,
            import_map: ImportMap::from_hashmap(import_map),
            aleph_pkg_uri,
            react_version,
        }
    }

    /// The effective package base URI: the configured override, or the
    /// built-in default.
    pub fn get_aleph_pkg_uri(&self) -> (r: String)
        ensures
            r@ == match self.aleph_pkg_uri {
                Option::Some(s) => s@,
                Option::None => aleph_default_uri(),
            },
    {
        match &self.aleph_pkg_uri {
            Option::Some(s) => s.clone(),
            Option::None => {
                let v = crate::policy::lit_aleph_origin();
                string_from_chars(&v)
            },
        }
    }

    /// Map a fully-qualified specifier to its canonical cache path.
    pub fn fix_import_url(&self, url: &str) -> (r: String)
        requires
            spec_is_remote(url@) ==> spec_parse_url(url@) is Some,
        ensures
            r@ == spec_canonicalize(url@),
    {
        let uc = chars_of(url);
        let c = canonicalize_chars(&uc);
        match c {
            Option::Some(v) => string_from_chars(&v),
            Option::None => {
                // unreachable under the precondition
                proof {
                    assert(false);
                }
                String::new()
            },
        }
    }

    /// Resolve an import/export target: the rewritten output path and the
    /// fully-qualified specifier; the dependency is recorded unless the
    /// relation hint is `.`.
    #[verifier::rlimit(100)]
    #[verifier::spinoff_prover]
    pub fn resolve(&mut self, url: &str, is_dynamic: bool, rel: Option<String>) -> (r: Result<
        (String, String),
        ResolveError,
    >)
        ensures
            match r {
                Ok(pf) => match spec_resolve(*old(self), url@, opt_chars(rel)) {
                    Option::Some(t) => pf.0@ == t.0 && pf.1@ == t.1 && (starts_dot_slash(pf.0@)
                        || starts_dotdot_slash(pf.0@) || starts_slash(pf.0@)) && dep_views(
                        final(self).dep_graph@,
                    ) == dep_views(old(self).dep_graph@) + (if t.2 {
                        seq![(t.1, is_dynamic)]
                    } else {
                        Seq::<(Seq<char>, bool)>::empty()
                    }) && same_config(*old(self), *final(self)),
                    Option::None => false,
                },
                Err(_) => spec_resolve(*old(self), url@, opt_chars(rel)) is None && *final(self)
                    == *old(self),
            },
    {
        let spec_c = chars_of(self.specifier.as_str());
        let url_c = chars_of(url);
        let mapped = self.import_map.resolve_chars(&spec_c, &url_c);
        // qualify the mapped target into a fully-qualified form
        let fixed0: Vec<char> = match qualify_exec(&spec_c, self.specifier_is_remote, mapped) {
            Option::Some(q) => q,
            Option::None => {
                return Err(ResolveError::MalformedUrl);
            },
        };
        // policy rewrites
        let aleph_c: Option<Vec<char>> = match &self.aleph_pkg_uri {
            Option::Some(s) => Some(chars_of(s.as_str())),
            Option::None => None,
        };
        let react_c: Option<Vec<char>> = match &self.react_version {
            Option::Some(s) => Some(chars_of(s.as_str())),
            Option::None => None,
        };
        let fixed1 = apply_aleph_exec(&aleph_c, &fixed0);
        let fixed = apply_react_pin_exec(&react_c, &fixed1);
        // the output path before the extension policy
        let is_rem = is_remote_chars(&fixed);
        let p0: Vec<char> = match output_path_exec(&fixed, &spec_c, self.specifier_is_remote) {
            Option::Some(p) => p,
            Option::None => {
                return Err(ResolveError::MalformedUrl);
            },
        };
        // extension and placeholder policy, then the bare-path guard
        let both_local = !is_rem && !self.specifier_is_remote;
        let finalized = finalize_exec(&p0, both_local);
        let outp = guard_exec(finalized);
        // dependency recording
        let record: bool = match &rel {
            Option::Some(rs) => {
                let rc = chars_of(rs.as_str());
                let is_dot_hint = rc.len() == 1 && rc[0] == '.';
                proof {
                    if is_dot_hint {
                        assert(rc@ =~= dot());
                    }
                    if !is_dot_hint && rc@ == dot() {
                        assert(rc@.len() == 1 && rc@[0] == '.');
                    }
                }
                !is_dot_hint
            },
            Option::None => true,
        };
        let fixed_s = string_from_chars(&fixed);
        if record {
            let d = DependencyDescriptor { specifier: fixed_s.clone(), is_dynamic };
            proof {
                assert(dep_views(self.dep_graph@.push(d)) =~= dep_views(self.dep_graph@).push(
                    (d.specifier@, d.is_dynamic),
                ));
                assert(dep_views(old(self).dep_graph@) + seq![(fixed@, is_dynamic)] =~= dep_views(
                    old(self).dep_graph@,
                ).push((fixed@, is_dynamic)));
            }
            self.dep_graph.push(d);
        } else {
            proof {
                assert(dep_views(old(self).dep_graph@) + Seq::<(Seq<char>, bool)>::empty()
                    =~= dep_views(old(self).dep_graph@));
            }
        }
        let out_s = string_from_chars(&outp);
        Ok((out_s, fixed_s))
    }
}

/// Whether a specifier is a remote URL: it starts with `http://` or
/// `https://`; no other shape counts as remote.
pub fn is_remote_url(url: &str) -> (r: bool)
    ensures
        r == spec_is_remote(url@),
{
    let v = chars_of(url);
    is_remote_chars(&v)
}

} // verus!
