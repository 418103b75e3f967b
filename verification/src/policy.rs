//! Policy rewrites applied to a fully-qualified URL before canonicalization:
//! substitution of the framework package origin by a configured base URI, and
//! pinning of recognized CDN dependency URLs to a configured version.
use vstd::prelude::*;
use crate::remote::{
    http_scheme, https_scheme, is_digit, is_digit_exec, lit_http_scheme, lit_https_scheme,
};
use crate::text::{
    chars_eq, copy_vec, extend_vec, has_prefix, strip_rep_prefix, strip_rep_prefix_exec, subvec,
};

verus! {

/// The framework's canonical package origin, with a trailing slash.
pub open spec fn aleph_origin_slash() -> Seq<char> {
    seq![
        'h',
        't',
        't',
        'p',
        's',
        ':',
        '/',
        '/',
        'd',
        'e',
        'n',
        'o',
        '.',
        'l',
        'a',
        'n',
        'd',
        '/',
        'x',
        '/',
        'a',
        'l',
        'e',
        'p',
        'h',
        '/',
    ]
}

/// The framework's canonical package origin, without the trailing slash.
pub open spec fn aleph_origin() -> Seq<char> {
    aleph_origin_slash().take(25)
}

pub fn lit_aleph_origin_slash() -> (r: Vec<char>)
    ensures
        r@ == aleph_origin_slash(),
{
    let mut r = lit_https_scheme();
    r.push('d');
    r.push('e');
    r.push('n');
    r.push('o');
    r.push('.');
    r.push('l');
    r.push('a');
    r.push('n');
    r.push('d');
    r.push('/');
    r.push('x');
    r.push('/');
    r.push('a');
    r.push('l');
    r.push('e');
    r.push('p');
    r.push('h');
    r.push('/');
    assert(r@ =~= aleph_origin_slash());
    r
}

pub fn lit_aleph_origin() -> (r: Vec<char>)
    ensures
        r@ == aleph_origin(),
{
    let s = lit_aleph_origin_slash();
    let r = subvec(&s, 0, 25);
    r
}

/// The package-origin policy: when a base URI is configured and the URL lies
/// under the canonical package origin, the origin prefix is replaced by the
/// base URI; any repetition of the origin prefix is consumed.
pub open spec fn apply_aleph(base: Option<Seq<char>>, fixed: Seq<char>) -> Seq<char> {
    match base {
        Option::None => fixed,
        Option::Some(b) => if aleph_origin_slash().is_prefix_of(fixed) {
            b + seq!['/'] + strip_rep_prefix(fixed, aleph_origin_slash())
        } else {
            fixed
        },
    }
}

pub fn apply_aleph_exec(base: &Option<Vec<char>>, fixed: &Vec<char>) -> (r: Vec<char>)
    ensures
        r@ == apply_aleph(
            match base {
                Option::Some(b) => Option::Some(b@),
                Option::None => Option::None,
            },
            fixed@,
        ),
{
    match base {
        Option::None => copy_vec(fixed),
        Option::Some(b) => {
            let origin = lit_aleph_origin_slash();
            if has_prefix(fixed, &origin) {
                let rest = strip_rep_prefix_exec(fixed, &origin);
                let mut r = copy_vec(b);
                r.push('/');
                extend_vec(&mut r, &rest);
                proof {
                    assert(r@ =~= b@ + seq!['/'] + strip_rep_prefix(fixed@, aleph_origin_slash()));
                }
                r
            } else {
                copy_vec(fixed)
            }
        },
    }
}

/// The pieces of a recognized CDN dependency URL.
pub ghost struct ReactMatch {
    /// the matched host prefix, e.g. `esm.sh/` or `cdn.esm.sh/v15/`
    pub host: Seq<char>,
    /// whether that host is one of the first-class canonical hosts
    pub canonical: bool,
    /// whether the `-dom` family variant was matched
    pub fam_dom: bool,
    /// the version spec as written, `@` included; empty when absent
    pub ver: Seq<char>,
    /// the trailing path or query, verbatim; empty when absent
    pub suffix: Seq<char>,
}

pub open spec fn react_lit() -> Seq<char> {
    seq!['r', 'e', 'a', 'c', 't']
}

pub open spec fn dom_lit() -> Seq<char> {
    seq!['-', 'd', 'o', 'm']
}

pub open spec fn is_mark(c: char) -> bool {
    c == '^' || c == '|' || c == '~'
}

pub open spec fn is_ver_char(c: char) -> bool {
    is_digit(c) || (('a' as u32) <= (c as u32) && (c as u32) <= ('z' as u32)) || c == '.' || c
        == '-'
}

pub open spec fn is_sep_char(c: char) -> bool {
    c == '/' || c == '|' || c == '?'
}

/// Where the run of version characters starting at `i` ends.
pub open spec fn ver_end(s: Seq<char>, i: int) -> int
    decreases s.len() - i,
    when 0 <= i <= s.len()
{
    if i < s.len() && is_ver_char(s[i]) {
        ver_end(s, i + 1)
    } else {
        i
    }
}

pub proof fn lemma_ver_end(s: Seq<char>, i: int)
    requires
        0 <= i <= s.len(),
    ensures
        i <= ver_end(s, i) <= s.len(),
    decreases s.len() - i,
{
    if i < s.len() && is_ver_char(s[i]) {
        lemma_ver_end(s, i + 1);
    }
}

/// Where the run of digits starting at `i` ends.
pub open spec fn digits_end(s: Seq<char>, i: int) -> int
    decreases s.len() - i,
    when 0 <= i <= s.len()
{
    if i < s.len() && is_digit(s[i]) {
        digits_end(s, i + 1)
    } else {
        i
    }
}

pub proof fn lemma_digits_end(s: Seq<char>, i: int)
    requires
        0 <= i <= s.len(),
    ensures
        i <= digits_end(s, i) <= s.len(),
    decreases s.len() - i,
{
    if i < s.len() && is_digit(s[i]) {
        lemma_digits_end(s, i + 1);
    }
}

/// The fixed host prefixes of the recognized CDNs: the literal text, whether
/// a `v` and a number directory follows, and whether the host is first-class
/// canonical.
pub open spec fn cdn_hosts() -> Seq<(Seq<char>, bool, bool)> {
    seq![
        (seq!['e', 's', 'm', '.', 's', 'h', '/'], false, true),
        (seq!['c', 'd', 'n', '.', 'e', 's', 'm', '.', 's', 'h', '/', 'v'], true, true),
        (
            seq![
                'e',
                's',
                'm',
                '.',
                'x',
                '-',
                's',
                't',
                'a',
                't',
                'i',
                'c',
                '.',
                'i',
                'o',
                '/',
                'v',
            ],
            true,
            true,
        ),
        (seq!['j', 's', 'p', 'm', '.', 'd', 'e', 'v', '/', 'n', 'p', 'm', ':'], false, false),
        (seq!['j', 's', 'p', 'm', '.', 'd', 'e', 'v', '/'], false, false),
        (
            seq![
                'c',
                'd',
                'n',
                '.',
                's',
                'k',
                'y',
                'p',
                'a',
                'c',
                'k',
                '.',
                'd',
                'e',
                'v',
                '/',
            ],
            false,
            false,
        ),
        (seq!['e', 's', 'm', '.', 'r', 'u', 'n', '/'], false, false),
    ]
}

/// The matched host prefix of `t` under one candidate: the literal prefix,
/// extended by a number directory when the candidate asks for one.
pub open spec fn host_try(t: Seq<char>, lit: Seq<char>, vdir: bool) -> Option<Seq<char>> {
    if !lit.is_prefix_of(t) {
        Option::None
    } else if !vdir {
        Option::Some(lit)
    } else {
        let de = digits_end(t, lit.len() as int);
        if de > lit.len() && de < t.len() && t[de] == '/' {
            Option::Some(t.take(de + 1))
        } else {
            Option::None
        }
    }
}

/// The first CDN host candidate that matches, with its canonical mark.
pub open spec fn host_match_from(t: Seq<char>, i: int) -> Option<(Seq<char>, bool)>
    decreases cdn_hosts().len() - i,
    when 0 <= i <= cdn_hosts().len()
{
    if i >= cdn_hosts().len() {
        Option::None
    } else {
        let c = cdn_hosts()[i];
        match host_try(t, c.0, c.1) {
            Option::Some(h) => Option::Some((h, c.2)),
            Option::None => host_match_from(t, i + 1),
        }
    }
}

/// The decomposition of the remainder after the host: the family variant,
/// the version spec as written, and the trailing suffix.
pub open spec fn react_tail(rem: Seq<char>) -> Option<(bool, Seq<char>, Seq<char>)> {
    if !react_lit().is_prefix_of(rem) {
        Option::None
    } else {
        let r1 = rem.skip(5);
        let dom = dom_lit().is_prefix_of(r1);
        let r2 = if dom {
            r1.skip(4)
        } else {
            r1
        };
        if r2.len() > 0 && r2[0] == '@' {
            let vstart: int = if r2.len() > 1 && is_mark(r2[1]) {
                2
            } else {
                1
            };
            let vend = ver_end(r2, vstart);
            if vend == vstart {
                Option::None
            } else {
                let sfx = r2.skip(vend);
                if sfx.len() == 0 || is_sep_char(sfx[0]) {
                    Option::Some((dom, r2.take(vend), sfx))
                } else {
                    Option::None
                }
            }
        } else {
            if r2.len() == 0 || is_sep_char(r2[0]) {
                Option::Some((dom, Seq::empty(), r2))
            } else {
                Option::None
            }
        }
    }
}

/// The full decomposition of a recognized CDN dependency URL.
pub open spec fn react_match(s: Seq<char>) -> Option<ReactMatch> {
    if !(http_scheme().is_prefix_of(s) || https_scheme().is_prefix_of(s)) {
        Option::None
    } else {
        let t = s.skip(
            if https_scheme().is_prefix_of(s) {
                8
            } else {
                7
            },
        );
        match host_match_from(t, 0) {
            Option::None => Option::None,
            Option::Some((h, canonical)) => match react_tail(t.skip(h.len() as int)) {
                Option::None => Option::None,
                Option::Some((dom, ver, sfx)) => Option::Some(
                    ReactMatch { host: h, canonical, fam_dom: dom, ver, suffix: sfx },
                ),
            },
        }
    }
}

pub open spec fn esm_sh_lit() -> Seq<char> {
    seq!['e', 's', 'm', '.', 's', 'h', '/']
}

/// The rebuilt URL that pinning produces from a match and a pinned version.
pub open spec fn pinned_url(m: ReactMatch, v: Seq<char>) -> Seq<char> {
    https_scheme() + (if m.canonical {
        m.host
    } else {
        esm_sh_lit()
    }) + react_lit() + (if m.fam_dom {
        dom_lit()
    } else {
        Seq::<char>::empty()
    }) + seq!['@'] + v + m.suffix
}

/// The version-pinning policy: a recognized CDN dependency URL is rewritten
/// onto the canonical host at the pinned version, unless the host was already
/// first-class canonical and the version spec equals the pinned version text.
pub open spec fn apply_react_pin(version: Option<Seq<char>>, fixed: Seq<char>) -> Seq<char> {
    match version {
        Option::None => fixed,
        Option::Some(v) => match react_match(fixed) {
            Option::None => fixed,
            Option::Some(m) => if !m.canonical || m.ver != v {
                pinned_url(m, v)
            } else {
                fixed
            },
        },
    }
}

/// A CDN dependency match held as plain values.
pub struct ReactMatchExec {
    pub host: Vec<char>,
    pub canonical: bool,
    pub fam_dom: bool,
    pub ver: Vec<char>,
    pub suffix: Vec<char>,
}

impl ReactMatchExec {
    pub open spec fn model(&self) -> ReactMatch {
        ReactMatch {
            host: self.host@,
            canonical: self.canonical,
            fam_dom: self.fam_dom,
            ver: self.ver@,
            suffix: self.suffix@,
        }
    }
}

pub open spec fn host_views(hs: Seq<(Vec<char>, bool, bool)>) -> Seq<(Seq<char>, bool, bool)> {
    hs.map_values(|p: (Vec<char>, bool, bool)| (p.0@, p.1, p.2))
}

fn push_chars(v: &mut Vec<char>, a: char, b: char, c: char)
    ensures
        final(v)@ == old(v)@ + seq![a, b, c],
{
    v.push(a);
    v.push(b);
    v.push(c);
    assert(old(v)@.push(a).push(b).push(c) =~= old(v)@ + seq![a, b, c]);
}

fn cdn_hosts_exec() -> (r: Vec<(Vec<char>, bool, bool)>)
    ensures
        host_views(r@) == cdn_hosts(),
{
    let mut r: Vec<(Vec<char>, bool, bool)> = Vec::new();
    let mut h0: Vec<char> = Vec::new();
    push_chars(&mut h0, 'e', 's', 'm');
    push_chars(&mut h0, '.', 's', 'h');
    h0.push('/');
    assert(h0@ =~= cdn_hosts()[0].0);
    r.push((h0, false, true));
    let mut h1: Vec<char> = Vec::new();
    push_chars(&mut h1, 'c', 'd', 'n');
    push_chars(&mut h1, '.', 'e', 's');
    push_chars(&mut h1, 'm', '.', 's');
    push_chars(&mut h1, 'h', '/', 'v');
    assert(h1@ =~= cdn_hosts()[1].0);
    r.push((h1, true, true));
    let mut h2: Vec<char> = Vec::new();
    push_chars(&mut h2, 'e', 's', 'm');
    push_chars(&mut h2, '.', 'x', '-');
    push_chars(&mut h2, 's', 't', 'a');
    push_chars(&mut h2, 't', 'i', 'c');
    push_chars(&mut h2, '.', 'i', 'o');
    h2.push('/');
    h2.push('v');
    assert(h2@ =~= cdn_hosts()[2].0);
    r.push((h2, true, true));
    let mut h3: Vec<char> = Vec::new();
    push_chars(&mut h3, 'j', 's', 'p');
    push_chars(&mut h3, 'm', '.', 'd');
    push_chars(&mut h3, 'e', 'v', '/');
    push_chars(&mut h3, 'n', 'p', 'm');
    h3.push(':');
    assert(h3@ =~= cdn_hosts()[3].0);
    r.push((h3, false, false));
    let mut h4: Vec<char> = Vec::new();
    push_chars(&mut h4, 'j', 's', 'p');
    push_chars(&mut h4, 'm', '.', 'd');
    push_chars(&mut h4, 'e', 'v', '/');
    assert(h4@ =~= cdn_hosts()[4].0);
    r.push((h4, false, false));
    let mut h5: Vec<char> = Vec::new();
    push_chars(&mut h5, 'c', 'd', 'n');
    push_chars(&mut h5, '.', 's', 'k');
    push_chars(&mut h5, 'y', 'p', 'a');
    push_chars(&mut h5, 'c', 'k', '.');
    push_chars(&mut h5, 'd', 'e', 'v');
    h5.push('/');
    assert(h5@ =~= cdn_hosts()[5].0);
    r.push((h5, false, false));
    let mut h6: Vec<char> = Vec::new();
    push_chars(&mut h6, 'e', 's', 'm');
    push_chars(&mut h6, '.', 'r', 'u');
    h6.push('n');
    h6.push('/');
    assert(h6@ =~= cdn_hosts()[6].0);
    r.push((h6, false, false));
    proof {
        assert(host_views(r@) =~= cdn_hosts());
    }
    r
}

fn host_try_exec(t: &Vec<char>, lit: &Vec<char>, vdir: bool) -> (r: Option<Vec<char>>)
    ensures
        match r {
            Some(h) => host_try(t@, lit@, vdir) == Some(h@),
            None => host_try(t@, lit@, vdir) is None,
        },
{
    if !has_prefix(t, lit) {
        return None;
    }
    if !vdir {
        return Some(copy_vec(lit));
    }
    let mut i: usize = lit.len();
    proof {
        assert(lit@.is_prefix_of(t@));
    }
    while i < t.len() && is_digit_exec(t[i])
        invariant
            lit@.len() <= i <= t.len(),
            digits_end(t@, lit@.len() as int) == digits_end(t@, i as int),
        decreases t.len() - i,
    {
        i = i + 1;
    }
    if i > lit.len() && i < t.len() && t[i] == '/' {
        let h = subvec(t, 0, i + 1);
        proof {
            assert(h@ =~= t@.take(i + 1));
        }
        Some(h)
    } else {
        None
    }
}

fn host_match_exec(t: &Vec<char>) -> (r: Option<(Vec<char>, bool)>)
    ensures
        match r {
            Some(hb) => host_match_from(t@, 0) == Some((hb.0@, hb.1)),
            None => host_match_from(t@, 0) is None,
        },
{
    let hosts = cdn_hosts_exec();
    let hv: Ghost<Seq<(Seq<char>, bool, bool)>> = Ghost(host_views(hosts@));
    let mut i: usize = 0;
    while i < hosts.len()
        invariant
            i <= hosts.len(),
            hv@ == host_views(hosts@),
            hv@ == cdn_hosts(),
            hv@.len() == hosts@.len(),
            host_match_from(t@, 0) == host_match_from(t@, i as int),
        decreases hosts.len() - i,
    {
        proof {
            assert(hv@[i as int] == (hosts@[i as int].0@, hosts@[i as int].1, hosts@[i as int].2));
        }
        let lit = &hosts[i].0;
        let vdir = hosts[i].1;
        let canonical = hosts[i].2;
        match host_try_exec(t, lit, vdir) {
            Option::Some(h) => {
                return Some((h, canonical));
            },
            Option::None => {},
        }
        i = i + 1;
    }
    None
}

proof fn lemma_host_match_len(t: Seq<char>, i: int)
    requires
        0 <= i <= cdn_hosts().len(),
    ensures
        match host_match_from(t, i) {
            Option::Some(hb) => hb.0.len() <= t.len(),
            Option::None => true,
        },
    decreases cdn_hosts().len() - i,
{
    if i < cdn_hosts().len() {
        let c = cdn_hosts()[i];
        match host_try(t, c.0, c.1) {
            Option::Some(h) => {
                if c.1 {
                    lemma_digits_end(t, c.0.len() as int);
                }
            },
            Option::None => {
                lemma_host_match_len(t, i + 1);
            },
        }
    }
}

fn lit_react() -> (r: Vec<char>)
    ensures
        r@ == react_lit(),
{
    let mut r: Vec<char> = Vec::new();
    push_chars(&mut r, 'r', 'e', 'a');
    r.push('c');
    r.push('t');
    assert(r@ =~= react_lit());
    r
}

fn lit_dom() -> (r: Vec<char>)
    ensures
        r@ == dom_lit(),
{
    let mut r: Vec<char> = Vec::new();
    push_chars(&mut r, '-', 'd', 'o');
    r.push('m');
    assert(r@ =~= dom_lit());
    r
}

fn is_sep_char_exec(c: char) -> (r: bool)
    ensures
        r == is_sep_char(c),
{
    c == '/' || c == '|' || c == '?'
}

fn is_ver_char_exec(c: char) -> (r: bool)
    ensures
        r == is_ver_char(c),
{
    let x = c as u32;
    (48 <= x && x <= 57) || (97 <= x && x <= 122) || c == '.' || c == '-'
}

fn react_tail_exec(rem: &Vec<char>) -> (r: Option<(bool, Vec<char>, Vec<char>)>)
    ensures
        match r {
            Some(t) => react_tail(rem@) == Some((t.0, t.1@, t.2@)),
            None => react_tail(rem@) is None,
        },
{
    let rl = lit_react();
    if !has_prefix(rem, &rl) {
        return None;
    }
    let r1 = subvec(rem, 5, rem.len());
    proof {
        assert(r1@ =~= rem@.skip(5));
    }
    let dl = lit_dom();
    let dom = has_prefix(&r1, &dl);
    let r2 = if dom {
        let x = subvec(&r1, 4, r1.len());
        proof {
            assert(x@ =~= r1@.skip(4));
        }
        x
    } else {
        r1
    };
    if r2.len() > 0 && r2[0] == '@' {
        let vstart: usize = if r2.len() > 1 && (r2[1] == '^' || r2[1] == '|' || r2[1] == '~') {
            2
        } else {
            1
        };
        let mut i: usize = vstart;
        while i < r2.len() && is_ver_char_exec(r2[i])
            invariant
                vstart <= i <= r2.len(),
                ver_end(r2@, vstart as int) == ver_end(r2@, i as int),
            decreases r2.len() - i,
        {
            i = i + 1;
        }
        if i == vstart {
            return None;
        }
        let sfx = subvec(&r2, i, r2.len());
        proof {
            assert(sfx@ =~= r2@.skip(i as int));
        }
        if sfx.len() == 0 || is_sep_char_exec(sfx[0]) {
            let ver = subvec(&r2, 0, i);
            proof {
                assert(ver@ =~= r2@.take(i as int));
            }
            Some((dom, ver, sfx))
        } else {
            None
        }
    } else {
        if r2.len() == 0 || is_sep_char_exec(r2[0]) {
            Some((dom, Vec::new(), r2))
        } else {
            None
        }
    }
}

pub fn react_match_exec(s: &Vec<char>) -> (r: Option<ReactMatchExec>)
    ensures
        match r {
            Some(m) => react_match(s@) == Some(m.model()),
            None => react_match(s@) is None,
        },
{
    let https_l = lit_https_scheme();
    let http_l = lit_http_scheme();
    let https = has_prefix(s, &https_l);
    let http = has_prefix(s, &http_l);
    if !https && !http {
        return None;
    }
    let off: usize = if https {
        8
    } else {
        7
    };
    let t = subvec(s, off, s.len());
    proof {
        assert(t@ =~= s@.skip(off as int));
    }
    match host_match_exec(&t) {
        Option::None => None,
        Option::Some((h, canonical)) => {
            proof {
                lemma_host_match_len(t@, 0);
            }
            let rem = subvec(&t, h.len(), t.len());
            proof {
                assert(rem@ =~= t@.skip(h@.len() as int));
            }
            match react_tail_exec(&rem) {
                Option::None => None,
                Option::Some((dom, ver, sfx)) => Some(
                    ReactMatchExec { host: h, canonical, fam_dom: dom, ver, suffix: sfx },
                ),
            }
        },
    }
}

/// Apply the version-pinning policy to a fully-qualified URL.
pub fn apply_react_pin_exec(version: &Option<Vec<char>>, fixed: &Vec<char>) -> (r: Vec<char>)
    ensures
        r@ == apply_react_pin(
            match version {
                Option::Some(v) => Option::Some(v@),
                Option::None => Option::None,
            },
            fixed@,
        ),
{
    match version {
        Option::None => copy_vec(fixed),
        Option::Some(v) => {
            match react_match_exec(fixed) {
                Option::None => copy_vec(fixed),
                Option::Some(m) => {
                    if !m.canonical || !chars_eq(&m.ver, v) {
                        let mut r = lit_https_scheme();
                        if m.canonical {
                            extend_vec(&mut r, &m.host);
                        } else {
                            let e = {
                                let mut e0: Vec<char> = Vec::new();
                                push_chars(&mut e0, 'e', 's', 'm');
                                push_chars(&mut e0, '.', 's', 'h');
                                e0.push('/');
                                e0
                            };
                            assert(e@ =~= esm_sh_lit());
                            extend_vec(&mut r, &e);
                        }
                        let rl = lit_react();
                        extend_vec(&mut r, &rl);
                        if m.fam_dom {
                            let dl = lit_dom();
                            extend_vec(&mut r, &dl);
                        }
                        r.push('@');
                        extend_vec(&mut r, v);
                        extend_vec(&mut r, &m.suffix);
                        proof {
                            assert(r@ =~= pinned_url(m.model(), v@));
                        }
                        r
                    } else {
                        copy_vec(fixed)
                    }
                },
            }
        },
    }
}

} // verus!

verus! {

proof fn lemma_host_match_prefix(t: Seq<char>, i: int)
    requires
        0 <= i <= cdn_hosts().len(),
    ensures
        match host_match_from(t, i) {
            Option::Some(hb) => hb.0.is_prefix_of(t),
            Option::None => true,
        },
    decreases cdn_hosts().len() - i,
{
    if i < cdn_hosts().len() {
        let c = cdn_hosts()[i];
        match host_try(t, c.0, c.1) {
            Option::Some(h) => {
                if c.1 {
                    lemma_digits_end(t, c.0.len() as int);
                    let de = digits_end(t, c.0.len() as int);
                    assert(t.take(de + 1) =~= t.subrange(0, de + 1));
                    assert(t.take(de + 1).is_prefix_of(t));
                }
            },
            Option::None => {
                lemma_host_match_prefix(t, i + 1);
            },
        }
    }
}

proof fn lemma_react_tail_decompose(rem: Seq<char>)
    requires
        react_tail(rem) is Some,
    ensures
        react_tail(rem) matches Some(tl) ==> rem == react_lit() + (if tl.0 {
            dom_lit()
        } else {
            Seq::<char>::empty()
        }) + tl.1 + tl.2,
{
    let tl = match react_tail(rem) {
        Option::Some(tl) => tl,
        Option::None => arbitrary(),
    };
    assert(react_lit().is_prefix_of(rem));
    let r1 = rem.skip(5);
    assert(rem =~= react_lit() + r1);
    let dom = dom_lit().is_prefix_of(r1);
    let r2 = if dom {
        r1.skip(4)
    } else {
        r1
    };
    if dom {
        assert(r1 =~= dom_lit() + r2);
    }
    assert(tl.0 == dom);
    if r2.len() > 0 && r2[0] == '@' {
        let vstart: int = if r2.len() > 1 && is_mark(r2[1]) {
            2
        } else {
            1
        };
        let vend = ver_end(r2, vstart);
        lemma_ver_end(r2, vstart);
        assert(tl.1 == r2.take(vend) && tl.2 == r2.skip(vend));
        assert(r2 =~= r2.take(vend) + r2.skip(vend));
    } else {
        assert(tl.1 == Seq::<char>::empty() && tl.2 == r2);
        assert(r2 =~= Seq::<char>::empty() + r2);
    }
    assert(rem =~= react_lit() + (if tl.0 {
        dom_lit()
    } else {
        Seq::<char>::empty()
    }) + tl.1 + tl.2);
}

/// A recognized CDN dependency URL is exactly the concatenation of its
/// matched pieces.
#[verifier::rlimit(100)]
#[verifier::spinoff_prover]
pub proof fn lemma_react_match_decompose(s: Seq<char>)
    requires
        react_match(s) is Some,
    ensures
        react_match(s) matches Some(m) ==> s == (if https_scheme().is_prefix_of(s) {
            https_scheme()
        } else {
            http_scheme()
        }) + m.host + react_lit() + (if m.fam_dom {
            dom_lit()
        } else {
            Seq::<char>::empty()
        }) + m.ver + m.suffix,
{
    let m = match react_match(s) {
        Option::Some(m) => m,
        Option::None => arbitrary(),
    };
    let off: int = if https_scheme().is_prefix_of(s) {
        8
    } else {
        7
    };
    let t = s.skip(off);
    assert(s =~= (if https_scheme().is_prefix_of(s) {
        https_scheme()
    } else {
        http_scheme()
    }) + t);
    lemma_host_match_prefix(t, 0);
    assert(m.host.is_prefix_of(t));
    let rem = t.skip(m.host.len() as int);
    assert(t =~= m.host + rem);
    lemma_react_tail_decompose(rem);
    assert(rem == react_lit() + (if m.fam_dom {
        dom_lit()
    } else {
        Seq::<char>::empty()
    }) + m.ver + m.suffix);
    assert(s =~= (if https_scheme().is_prefix_of(s) {
        https_scheme()
    } else {
        http_scheme()
    }) + m.host + react_lit() + (if m.fam_dom {
        dom_lit()
    } else {
        Seq::<char>::empty()
    }) + m.ver + m.suffix);
}

/// The version-pinning law: a recognized dependency URL whose host is not
/// first-class canonical or whose version spec is not the pinned text is
/// rewritten to the canonical recomposition, which ends in `@`, the pinned
/// version and the original trailing suffix; a URL already canonical at the
/// pinned version is returned unchanged.
pub proof fn lemma_pin_version(s: Seq<char>, v: Seq<char>)
    requires
        react_match(s) is Some,
    ensures
        react_match(s) matches Some(m) ==> {
            &&& apply_react_pin(Some(v), s) == (if !m.canonical || m.ver != v {
                pinned_url(m, v)
            } else {
                s
            })
            &&& (!m.canonical || m.ver != v) ==> (seq!['@'] + v + m.suffix).is_suffix_of(
                apply_react_pin(Some(v), s),
            )
            &&& (m.canonical && m.ver == seq!['@'] + v && https_scheme().is_prefix_of(s))
                ==> apply_react_pin(Some(v), s) == s
        },
{
    let m = match react_match(s) {
        Option::Some(m) => m,
        Option::None => arbitrary(),
    };
    if !m.canonical || m.ver != v {
        let head = https_scheme() + (if m.canonical {
            m.host
        } else {
            esm_sh_lit()
        }) + react_lit() + (if m.fam_dom {
            dom_lit()
        } else {
            Seq::<char>::empty()
        });
        let tail_part = seq!['@'] + v + m.suffix;
        assert(pinned_url(m, v) =~= head + tail_part);
        assert(tail_part =~= (head + tail_part).subrange(
            head.len() as int,
            (head + tail_part).len() as int,
        ));
        assert(tail_part.is_suffix_of(pinned_url(m, v)));
    }
    if m.canonical && m.ver == seq!['@'] + v && https_scheme().is_prefix_of(s) {
        assert(m.ver != v) by {
            assert(m.ver.len() == v.len() + 1);
        }
        lemma_react_match_decompose(s);
        assert(pinned_url(m, v) =~= https_scheme() + m.host + react_lit() + (if m.fam_dom {
            dom_lit()
        } else {
            Seq::<char>::empty()
        }) + m.ver + m.suffix);
        assert(apply_react_pin(Some(v), s) == s);
    }
}

} // verus!
