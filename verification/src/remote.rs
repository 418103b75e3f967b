//! Remote URLs: the recognized grammar is `scheme://host[:port]/path[?query]`
//! with scheme `http` or `https`; a trailing `#fragment` is discarded.  This
//! module classifies specifiers as remote, parses and renders such URLs, and
//! maps a parsed URL to its canonical on-disk cache path.
use vstd::prelude::*;
use crate::paths::{dot, dotdot, trim_end_idx, lemma_trim_end_idx};
use crate::text::{
    copy_vec, extend_vec, find_from, has_prefix, lemma_cancel_left, lemma_cancel_middle,
    lemma_srfind, rfind_before, sfind, split_on, srfind, ssplit, strip_rep_suffix,
    strip_rep_suffix_exec, subvec, views,
};

verus! {

pub open spec fn http_scheme() -> Seq<char> {
    seq!['h', 't', 't', 'p', ':', '/', '/']
}

pub open spec fn https_scheme() -> Seq<char> {
    seq!['h', 't', 't', 'p', 's', ':', '/', '/']
}

/// A specifier is remote exactly when it starts with `http://` or `https://`.
pub open spec fn spec_is_remote(s: Seq<char>) -> bool {
    http_scheme().is_prefix_of(s) || https_scheme().is_prefix_of(s)
}

pub fn lit_http_scheme() -> (r: Vec<char>)
    ensures
        r@ == http_scheme(),
{
    let mut r: Vec<char> = Vec::new();
    r.push('h');
    r.push('t');
    r.push('t');
    r.push('p');
    r.push(':');
    r.push('/');
    r.push('/');
    assert(r@ =~= http_scheme());
    r
}

pub fn lit_https_scheme() -> (r: Vec<char>)
    ensures
        r@ == https_scheme(),
{
    let mut r: Vec<char> = Vec::new();
    r.push('h');
    r.push('t');
    r.push('t');
    r.push('p');
    r.push('s');
    r.push(':');
    r.push('/');
    r.push('/');
    assert(r@ =~= https_scheme());
    r
}

pub fn is_remote_chars(v: &Vec<char>) -> (r: bool)
    ensures
        r == spec_is_remote(v@),
{
    let http = lit_http_scheme();
    let https = lit_https_scheme();
    has_prefix(v, &https) || has_prefix(v, &http)
}

/// The structural model of a parsed remote URL.
pub ghost struct SpecUrl {
    pub https: bool,
    pub host: Seq<char>,
    pub port: Option<int>,
    pub path: Seq<char>,
    pub query: Option<Seq<char>>,
}

/// A parsed remote URL held as plain values.
pub struct UrlParts {
    pub https: bool,
    pub host: Vec<char>,
    pub port: Option<u16>,
    pub path: Vec<char>,
    pub query: Option<Vec<char>>,
}

impl UrlParts {
    pub open spec fn model(&self) -> SpecUrl {
        SpecUrl {
            https: self.https,
            host: self.host@,
            port: match self.port {
                Option::Some(p) => Option::Some(p as int),
                Option::None => Option::None,
            },
            path: self.path@,
            query: match self.query {
                Option::Some(q) => Option::Some(q@),
                Option::None => Option::None,
            },
        }
    }
}

pub open spec fn is_digit(c: char) -> bool {
    ('0' as u32) <= (c as u32) && (c as u32) <= ('9' as u32)
}

pub open spec fn digit_val(c: char) -> int {
    (c as u32) - ('0' as u32)
}

pub open spec fn all_digits(s: Seq<char>) -> bool {
    s.len() > 0 && forall|i: int| 0 <= i < s.len() ==> is_digit(#[trigger] s[i])
}

/// The numeric value of a digit string, read left to right.
pub open spec fn dec_val_from(s: Seq<char>, i: int, acc: int) -> int
    decreases s.len() - i,
    when 0 <= i <= s.len()
{
    if i >= s.len() {
        acc
    } else {
        dec_val_from(s, i + 1, acc * 10 + digit_val(s[i]))
    }
}

pub open spec fn dec_val(s: Seq<char>) -> int {
    dec_val_from(s, 0, 0)
}

/// The decimal digits of a non-negative number.
pub open spec fn dec_digits(n: int) -> Seq<char>
    decreases n,
    when n >= 0
{
    if n < 10 {
        seq![digit_char(n)]
    } else {
        dec_digits(n / 10).push(digit_char(n % 10))
    }
}

pub open spec fn digit_char(n: int) -> char {
    if n == 0 {
        '0'
    } else if n == 1 {
        '1'
    } else if n == 2 {
        '2'
    } else if n == 3 {
        '3'
    } else if n == 4 {
        '4'
    } else if n == 5 {
        '5'
    } else if n == 6 {
        '6'
    } else if n == 7 {
        '7'
    } else if n == 8 {
        '8'
    } else {
        '9'
    }
}

fn digit_char_exec(n: u32) -> (r: char)
    requires
        n <= 9,
    ensures
        r == digit_char(n as int),
{
    if n == 0 {
        '0'
    } else if n == 1 {
        '1'
    } else if n == 2 {
        '2'
    } else if n == 3 {
        '3'
    } else if n == 4 {
        '4'
    } else if n == 5 {
        '5'
    } else if n == 6 {
        '6'
    } else if n == 7 {
        '7'
    } else if n == 8 {
        '8'
    } else {
        '9'
    }
}

pub fn dec_digits_exec(n: u32) -> (r: Vec<char>)
    ensures
        r@ == dec_digits(n as int),
    decreases n,
{
    if n < 10 {
        let mut r: Vec<char> = Vec::new();
        r.push(digit_char_exec(n));
        assert(r@ =~= seq![digit_char(n as int)]);
        r
    } else {
        let mut r = dec_digits_exec(n / 10);
        r.push(digit_char_exec(n % 10));
        r
    }
}

/// The first position at or after `i` holding `/`, `?` or `#`, or the length.
pub open spec fn stop3(s: Seq<char>, i: int) -> int
    decreases s.len() - i,
    when 0 <= i <= s.len()
{
    if i >= s.len() {
        i
    } else if s[i] == '/' || s[i] == '?' || s[i] == '#' {
        i
    } else {
        stop3(s, i + 1)
    }
}

pub proof fn lemma_stop3(s: Seq<char>, i: int)
    requires
        0 <= i <= s.len(),
    ensures
        i <= stop3(s, i) <= s.len(),
    decreases s.len() - i,
{
    if i < s.len() && s[i] != '/' && s[i] != '?' && s[i] != '#' {
        lemma_stop3(s, i + 1);
    }
}

fn stop3_exec(v: &Vec<char>, from: usize) -> (r: usize)
    requires
        from <= v.len(),
    ensures
        r == stop3(v@, from as int),
        from <= r <= v.len(),
{
    let mut i: usize = from;
    while i < v.len() && v[i] != '/' && v[i] != '?' && v[i] != '#'
        invariant
            from <= i <= v.len(),
            stop3(v@, from as int) == stop3(v@, i as int),
        decreases v.len() - i,
    {
        i = i + 1;
    }
    proof {
        lemma_stop3(v@, from as int);
    }
    i
}

/// The port component: `None` stands for an absent or empty port, and an
/// explicit default port (80 for `http`, 443 for `https`) is normalized away.
pub open spec fn parse_port(digits: Seq<char>, https: bool) -> Option<Option<int>> {
    if digits.len() == 0 {
        Some(None)
    } else if all_digits(digits) && dec_val(digits) <= 65535 {
        if (https && dec_val(digits) == 443) || (!https && dec_val(digits) == 80) {
            Some(None)
        } else {
            Some(Some(dec_val(digits)))
        }
    } else {
        None
    }
}

/// The parsed form of a remote specifier, when it is well-formed: the scheme
/// and a non-empty host are mandatory, a missing path stands for `/`, and a
/// `#fragment` is discarded.
pub open spec fn spec_parse_url(s: Seq<char>) -> Option<SpecUrl> {
    if !spec_is_remote(s) {
        None
    } else {
        let https = https_scheme().is_prefix_of(s);
        let after = s.skip(if https {
            8
        } else {
            7
        });
        let ae = stop3(after, 0);
        let auth = after.take(ae);
        let rest = after.skip(ae);
        let host = match sfind(auth, 0, ':') {
            Option::None => auth,
            Option::Some(j) => auth.take(j),
        };
        let pdigits = match sfind(auth, 0, ':') {
            Option::None => Seq::<char>::empty(),
            Option::Some(j) => auth.skip(j + 1),
        };
        if host.len() == 0 {
            None
        } else {
            match parse_port(pdigits, https) {
                Option::None => None,
                Option::Some(port) => {
                    let pe = if rest.len() > 0 && rest[0] == '/' {
                        sfind2q(rest, 0)
                    } else {
                        0
                    };
                    let path = if rest.len() > 0 && rest[0] == '/' {
                        rest.take(pe)
                    } else {
                        seq!['/']
                    };
                    let after2 = rest.skip(pe);
                    let query = if after2.len() > 0 && after2[0] == '?' {
                        match sfind(after2, 1, '#') {
                            Option::None => Option::Some(after2.skip(1)),
                            Option::Some(k) => Option::Some(after2.subrange(1, k)),
                        }
                    } else {
                        Option::None
                    };
                    Some(SpecUrl { https, host, port, path, query })
                },
            }
        }
    }
}

/// The first position at or after `i` holding `?` or `#`, or the length.
pub open spec fn sfind2q(s: Seq<char>, i: int) -> int
    decreases s.len() - i,
    when 0 <= i <= s.len()
{
    if i >= s.len() {
        i
    } else if s[i] == '?' || s[i] == '#' {
        i
    } else {
        sfind2q(s, i + 1)
    }
}

pub proof fn lemma_sfind2q(s: Seq<char>, i: int)
    requires
        0 <= i <= s.len(),
    ensures
        i <= sfind2q(s, i) <= s.len(),
    decreases s.len() - i,
{
    if i < s.len() && s[i] != '?' && s[i] != '#' {
        lemma_sfind2q(s, i + 1);
    }
}

fn sfind2q_exec(v: &Vec<char>, from: usize) -> (r: usize)
    requires
        from <= v.len(),
    ensures
        r == sfind2q(v@, from as int),
        from <= r <= v.len(),
{
    let mut i: usize = from;
    while i < v.len() && v[i] != '?' && v[i] != '#'
        invariant
            from <= i <= v.len(),
            sfind2q(v@, from as int) == sfind2q(v@, i as int),
        decreases v.len() - i,
    {
        i = i + 1;
    }
    proof {
        lemma_sfind2q(v@, from as int);
    }
    i
}

pub fn is_digit_exec(c: char) -> (r: bool)
    ensures
        r == is_digit(c),
{
    let x = c as u32;
    48 <= x && x <= 57
}

/// Parse a remote specifier into its parts; `None` on a malformed URL.
pub fn parse_url_exec(v: &Vec<char>) -> (r: Option<UrlParts>)
    ensures
        match r {
            Some(u) => spec_parse_url(v@) == Some(u.model()),
            None => spec_parse_url(v@) is None,
        },
{
    let https = {
        let l = lit_https_scheme();
        has_prefix(v, &l)
    };
    let http = {
        let l = lit_http_scheme();
        has_prefix(v, &l)
    };
    if !https && !http {
        return None;
    }
    let slen: usize = if https {
        8
    } else {
        7
    };
    let after = subvec(v, slen, v.len());
    proof {
        assert(after@ =~= v@.skip(slen as int));
    }
    let ae = stop3_exec(&after, 0);
    let auth = subvec(&after, 0, ae);
    let rest = subvec(&after, ae, after.len());
    proof {
        assert(auth@ =~= after@.take(ae as int));
        assert(rest@ =~= after@.skip(ae as int));
    }
    let colon = find_from(&auth, 0, ':');
    let host: Vec<char>;
    let pdigits: Vec<char>;
    match colon {
        Option::Some(j) => {
            host = subvec(&auth, 0, j);
            pdigits = subvec(&auth, j + 1, auth.len());
            proof {
                assert(host@ =~= auth@.take(j as int));
                assert(pdigits@ =~= auth@.skip(j + 1));
            }
        },
        Option::None => {
            host = copy_vec(&auth);
            pdigits = Vec::new();
            proof {
                assert(pdigits@ =~= Seq::<char>::empty());
            }
        },
    }
    if host.len() == 0 {
        return None;
    }
    // parse the port digits
    let mut port: Option<u16> = None;
    if pdigits.len() > 0 {
        let mut acc: u32 = 0;
        let mut i: usize = 0;
        let mut ok = true;
        while i < pdigits.len()
            invariant
                i <= pdigits.len(),
                acc <= 65535,
                ok ==> forall|k: int| 0 <= k < i ==> is_digit(#[trigger] pdigits@[k]),
                ok ==> acc == dec_val_from(pdigits@.take(i as int), 0, 0),
                ok ==> dec_val(pdigits@) == dec_val_from(pdigits@, i as int, acc as int),
                !ok ==> !(all_digits(pdigits@) && dec_val(pdigits@) <= 65535),
            decreases pdigits.len() - i,
        {
            if ok {
                let c = pdigits[i];
                if !is_digit_exec(c) {
                    ok = false;
                } else {
                    let d = (c as u32) - 48;
                    proof {
                        assert(d == digit_val(pdigits@[i as int]));
                    }
                    if acc > 6553 || (acc == 6553 && d > 5) {
                        proof {
                            let next = acc * 10 + d;
                            assert(next > 65535);
                            lemma_dec_val_mono_partial(pdigits@, i + 1, next as int);
                        }
                        ok = false;
                    } else {
                        let old_acc: Ghost<u32> = Ghost(acc);
                        acc = acc * 10 + d;
                        proof {
                            assert(pdigits@.take(i + 1).drop_last() =~= pdigits@.take(i as int));
                            lemma_dec_val_take_step(pdigits@, i as int, old_acc@ as int);
                        }
                    }
                }
            }
            i = i + 1;
        }
        if !ok {
            return None;
        }
        proof {
            assert(pdigits@.take(pdigits@.len() as int) =~= pdigits@);
            assert(all_digits(pdigits@));
            assert(dec_val(pdigits@) == acc as int);
        }
        let val = acc as u16;
        if (https && val == 443) || (!https && val == 80) {
            port = None;
        } else {
            port = Some(val);
        }
    }
    // path and query
    let pe: usize = if rest.len() > 0 && rest[0] == '/' {
        sfind2q_exec(&rest, 0)
    } else {
        0
    };
    let path: Vec<char> = if rest.len() > 0 && rest[0] == '/' {
        let p = subvec(&rest, 0, pe);
        proof {
            assert(p@ =~= rest@.take(pe as int));
        }
        p
    } else {
        let mut p: Vec<char> = Vec::new();
        p.push('/');
        proof {
            assert(p@ =~= seq!['/']);
        }
        p
    };
    let after2 = subvec(&rest, pe, rest.len());
    proof {
        assert(after2@ =~= rest@.skip(pe as int));
    }
    let query: Option<Vec<char>> = if after2.len() > 0 && after2[0] == '?' {
        match find_from(&after2, 1, '#') {
            Option::None => {
                let q = subvec(&after2, 1, after2.len());
                proof {
                    assert(q@ =~= after2@.skip(1));
                }
                Some(q)
            },
            Option::Some(k) => {
                let q = subvec(&after2, 1, k);
                Some(q)
            },
        }
    } else {
        None
    };
    Some(UrlParts { https, host, port, path, query })
}

proof fn lemma_dec_val_mono_partial(s: Seq<char>, i: int, acc: int)
    requires
        0 <= i <= s.len(),
        0 <= acc,
    ensures
        !(forall|k: int| 0 <= k < s.len() ==> is_digit(#[trigger] s[k])) || dec_val_from(s, i, acc)
            >= acc,
    decreases s.len() - i,
{
    if forall|k: int| 0 <= k < s.len() ==> is_digit(#[trigger] s[k]) {
        if i < s.len() {
            assert(is_digit(s[i]));
            lemma_dec_val_mono_partial(s, i + 1, acc * 10 + digit_val(s[i]));
        }
    }
}

proof fn lemma_dec_val_take_step(s: Seq<char>, i: int, acc: int)
    requires
        0 <= i < s.len(),
        acc == dec_val_from(s.take(i), 0, 0),
    ensures
        dec_val_from(s.take(i + 1), 0, 0) == acc * 10 + digit_val(s[i]),
{
    let t = s.take(i + 1);
    lemma_dec_val_last(t, 0, 0);
    assert(t.drop_last() =~= s.take(i));
    assert(t.last() == s[i]);
}

/// The value of a digit string is ten times the value of all but its last
/// digit, plus the last digit.
proof fn lemma_dec_val_last(t: Seq<char>, j: int, acc: int)
    requires
        0 <= j < t.len(),
    ensures
        dec_val_from(t, j, acc) == dec_val_from(t.drop_last(), j, acc) * 10 + digit_val(t.last()),
    decreases t.len() - j,
{
    let acc2 = acc * 10 + digit_val(t[j]);
    assert(dec_val_from(t, j, acc) == dec_val_from(t, j + 1, acc2));
    if j + 1 == t.len() {
        assert(dec_val_from(t, j + 1, acc2) == acc2);
        assert(dec_val_from(t.drop_last(), j, acc) == acc);
        assert(t.last() == t[j]);
    } else {
        assert(t.drop_last()[j] == t[j]);
        assert(dec_val_from(t.drop_last(), j, acc) == dec_val_from(t.drop_last(), j + 1, acc2));
        lemma_dec_val_last(t, j + 1, acc2);
    }
}

pub open spec fn is_lower(c: char) -> bool {
    ('a' as u32) <= (c as u32) && (c as u32) <= ('z' as u32)
}

pub open spec fn all_lower_alnum(s: Seq<char>) -> bool {
    s.len() > 0 && forall|i: int| 0 <= i < s.len() ==> is_digit(#[trigger] s[i]) || is_lower(s[i])
}

pub open spec fn groups_core(gs: Seq<Seq<char>>) -> bool {
    1 <= gs.len() <= 3 && forall|i: int| 0 <= i < gs.len() ==> all_digits(#[trigger] gs[i])
}

pub open spec fn groups_pre(gs: Seq<Seq<char>>) -> bool {
    1 <= gs.len() <= 2 && forall|i: int| 0 <= i < gs.len() ==> all_lower_alnum(#[trigger] gs[i])
}

/// Whether the text after an `@` is a semantic-version suffix: one to three
/// dot-separated digit groups, then optionally `-` and one or two
/// dot-separated lower-case alphanumeric groups.
pub open spec fn version_tail_ok(t: Seq<char>) -> bool {
    match sfind(t, 0, '-') {
        Option::None => groups_core(ssplit(t, '.')),
        Option::Some(j) => groups_core(ssplit(t.take(j), '.')) && groups_pre(
            ssplit(t.skip(j + 1), '.'),
        ),
    }
}

/// Whether a URL path ends in a semantic-version suffix introduced by `@`.
pub open spec fn ends_with_version(path: Seq<char>) -> bool {
    match srfind(path, path.len() as int, '@') {
        Option::None => false,
        Option::Some(j) => version_tail_ok(path.skip(j + 1)),
    }
}

fn all_digits_exec(v: &Vec<char>) -> (r: bool)
    ensures
        r == all_digits(v@),
{
    if v.len() == 0 {
        return false;
    }
    let mut i: usize = 0;
    while i < v.len()
        invariant
            i <= v.len(),
            forall|k: int| 0 <= k < i ==> is_digit(#[trigger] v@[k]),
        decreases v.len() - i,
    {
        if !is_digit_exec(v[i]) {
            return false;
        }
        i = i + 1;
    }
    true
}

fn all_lower_alnum_exec(v: &Vec<char>) -> (r: bool)
    ensures
        r == all_lower_alnum(v@),
{
    if v.len() == 0 {
        return false;
    }
    let mut i: usize = 0;
    while i < v.len()
        invariant
            i <= v.len(),
            forall|k: int| 0 <= k < i ==> is_digit(#[trigger] v@[k]) || is_lower(v@[k]),
        decreases v.len() - i,
    {
        let x = v[i] as u32;
        if !(48 <= x && x <= 57) && !(97 <= x && x <= 122) {
            return false;
        }
        i = i + 1;
    }
    true
}

fn groups_core_exec(gs: &Vec<Vec<char>>) -> (r: bool)
    ensures
        r == groups_core(views(gs@)),
{
    if gs.len() < 1 || gs.len() > 3 {
        return false;
    }
    let mut i: usize = 0;
    while i < gs.len()
        invariant
            i <= gs.len(),
            forall|k: int| 0 <= k < i ==> all_digits(#[trigger] views(gs@)[k]),
        decreases gs.len() - i,
    {
        proof {
            assert(views(gs@)[i as int] == gs@[i as int]@);
        }
        if !all_digits_exec(&gs[i]) {
            return false;
        }
        i = i + 1;
    }
    true
}

fn groups_pre_exec(gs: &Vec<Vec<char>>) -> (r: bool)
    ensures
        r == groups_pre(views(gs@)),
{
    if gs.len() < 1 || gs.len() > 2 {
        return false;
    }
    let mut i: usize = 0;
    while i < gs.len()
        invariant
            i <= gs.len(),
            forall|k: int| 0 <= k < i ==> all_lower_alnum(#[trigger] views(gs@)[k]),
        decreases gs.len() - i,
    {
        proof {
            assert(views(gs@)[i as int] == gs@[i as int]@);
        }
        if !all_lower_alnum_exec(&gs[i]) {
            return false;
        }
        i = i + 1;
    }
    true
}

pub fn ends_with_version_exec(path: &Vec<char>) -> (r: bool)
    ensures
        r == ends_with_version(path@),
{
    match rfind_before(path, path.len(), '@') {
        Option::None => false,
        Option::Some(j) => {
            let t = subvec(path, j + 1, path.len());
            proof {
                assert(t@ =~= path@.skip(j + 1));
            }
            match find_from(&t, 0, '-') {
                Option::None => {
                    let gs = split_on(&t, '.');
                    groups_core_exec(&gs)
                },
                Option::Some(d) => {
                    let core = subvec(&t, 0, d);
                    let pre = subvec(&t, d + 1, t.len());
                    proof {
                        assert(core@ =~= t@.take(d as int));
                        assert(pre@ =~= t@.skip(d + 1));
                    }
                    let cgs = split_on(&core, '.');
                    let pgs = split_on(&pre, '.');
                    let c1 = groups_core_exec(&cgs);
                    let c2 = groups_pre_exec(&pgs);
                    c1 && c2
                },
            }
        },
    }
}

/// The extension of a file name, in the sense the canonicalizer uses it: the
/// text after the last `.`, absent when there is no `.` or the name starts
/// with its only `.`.
pub open spec fn ext_of(f: Seq<char>) -> Option<Seq<char>> {
    match srfind(f, f.len() as int, '.') {
        Option::None => Option::None,
        Option::Some(j) => if j == 0 {
            Option::None
        } else {
            Option::Some(f.skip(j + 1))
        },
    }
}

pub fn ext_of_exec(f: &Vec<char>) -> (r: Option<Vec<char>>)
    ensures
        match r {
            Some(x) => ext_of(f@) == Some(x@),
            None => ext_of(f@) is None,
        },
{
    match rfind_before(f, f.len(), '.') {
        Option::None => None,
        Option::Some(j) => {
            if j == 0 {
                None
            } else {
                let x = subvec(f, j + 1, f.len());
                proof {
                    assert(x@ =~= f@.skip(j + 1));
                }
                Some(x)
            }
        },
    }
}

pub open spec fn js_ext() -> Seq<char> {
    seq!['j', 's']
}

pub fn lit_js() -> (r: Vec<char>)
    ensures
        r@ == js_ext(),
{
    let mut r: Vec<char> = Vec::new();
    r.push('j');
    r.push('s');
    assert(r@ =~= js_ext());
    r
}

/// The extension the cache filename of a remote resource gets: `js` when the
/// path carries a semantic-version suffix or the name has no extension of its
/// own, the name's own extension otherwise.
pub open spec fn chosen_ext(path: Seq<char>, fname: Seq<char>) -> Seq<char> {
    match ext_of(fname) {
        Option::Some(x) => if ends_with_version(path) {
            js_ext()
        } else {
            x
        },
        Option::None => js_ext(),
    }
}

/// The URL path with its filename rewritten for the cache: the extension is
/// stripped, the query (when present) is appended after `_`, and the chosen
/// extension is put back.
pub open spec fn munged_path(path: Seq<char>, query: Option<Seq<char>>) -> Seq<char> {
    let t = path.take(trim_end_idx(path, path.len() as int));
    if t.len() == 0 {
        path
    } else {
        match srfind(t, t.len() as int, '/') {
            Option::None => path,
            Option::Some(j) => {
                let fname = t.skip(j + 1);
                if fname.len() == 0 || fname == dot() || fname == dotdot() {
                    path
                } else {
                    let fext = seq!['.'] + chosen_ext(path, fname);
                    let stem = strip_rep_suffix(fname, fext);
                    t.take(j + 1) + stem + (match query {
                        Option::Some(q) => seq!['_'] + q,
                        Option::None => Seq::<char>::empty(),
                    }) + fext
                }
            },
        }
    }
}

/// The canonical cache path of a parsed remote URL: `/-/`, an `http_` mark
/// for the `http` scheme, the host, `_` and the port when one is present, and
/// the rewritten path.
pub open spec fn canon_remote(u: SpecUrl) -> Seq<char> {
    seq!['/', '-', '/'] + (if u.https {
        Seq::<char>::empty()
    } else {
        seq!['h', 't', 't', 'p', '_']
    }) + u.host + (match u.port {
        Option::Some(p) => seq!['_'] + dec_digits(p),
        Option::None => Seq::<char>::empty(),
    }) + munged_path(u.path, u.query)
}

pub fn munged_path_exec(path: &Vec<char>, query: &Option<Vec<char>>) -> (r: Vec<char>)
    ensures
        r@ == munged_path(
            path@,
            match query {
                Option::Some(q) => Option::Some(q@),
                Option::None => Option::None,
            },
        ),
{
    let mut e: usize = path.len();
    while e > 0 && path[e - 1] == '/'
        invariant
            e <= path.len(),
            trim_end_idx(path@, path@.len() as int) == trim_end_idx(path@, e as int),
        decreases e,
    {
        e = e - 1;
    }
    let t = subvec(path, 0, e);
    proof {
        assert(t@ == path@.take(trim_end_idx(path@, path@.len() as int)));
    }
    if t.len() == 0 {
        return copy_vec(path);
    }
    match rfind_before(&t, t.len(), '/') {
        Option::None => copy_vec(path),
        Option::Some(j) => {
            let fname = subvec(&t, j + 1, t.len());
            proof {
                assert(fname@ =~= t@.skip(j + 1));
            }
            let fname_is_dot = fname.len() == 1 && fname[0] == '.';
            let fname_is_dd = fname.len() == 2 && fname[0] == '.' && fname[1] == '.';
            proof {
                if fname_is_dot {
                    assert(fname@ =~= dot());
                }
                if fname_is_dd {
                    assert(fname@ =~= dotdot());
                }
                if !fname_is_dot && fname@ == dot() {
                    assert(fname@.len() == 1 && fname@[0] == '.');
                }
                if !fname_is_dd && fname@ == dotdot() {
                    assert(fname@.len() == 2 && fname@[0] == '.' && fname@[1] == '.');
                }
            }
            if fname.len() == 0 || fname_is_dot || fname_is_dd {
                return copy_vec(path);
            }
            let ce: Vec<char> = match ext_of_exec(&fname) {
                Option::Some(x) => {
                    if ends_with_version_exec(path) {
                        lit_js()
                    } else {
                        x
                    }
                },
                Option::None => lit_js(),
            };
            let mut fext: Vec<char> = Vec::new();
            fext.push('.');
            extend_vec(&mut fext, &ce);
            proof {
                assert(fext@ =~= seq!['.'] + chosen_ext(path@, fname@));
            }
            let stem = strip_rep_suffix_exec(&fname, &fext);
            let mut r = subvec(&t, 0, j + 1);
            extend_vec(&mut r, &stem);
            match query {
                Option::Some(q) => {
                    r.push('_');
                    extend_vec(&mut r, q);
                },
                Option::None => {},
            }
            extend_vec(&mut r, &fext);
            proof {
                assert(r@ =~= munged_path(
                    path@,
                    match query {
                        Option::Some(q) => Option::Some(q@),
                        Option::None => Option::None,
                    },
                ));
            }
            r
        },
    }
}

pub fn canon_remote_exec(u: &UrlParts) -> (r: Vec<char>)
    ensures
        r@ == canon_remote(u.model()),
{
    let mut r: Vec<char> = Vec::new();
    r.push('/');
    r.push('-');
    r.push('/');
    if !u.https {
        r.push('h');
        r.push('t');
        r.push('t');
        r.push('p');
        r.push('_');
    }
    extend_vec(&mut r, &u.host);
    match &u.port {
        Option::Some(p) => {
            r.push('_');
            let d = dec_digits_exec(*p as u32);
            extend_vec(&mut r, &d);
        },
        Option::None => {},
    }
    let mp = munged_path_exec(&u.path, &u.query);
    extend_vec(&mut r, &mp);
    proof {
        assert(r@ =~= canon_remote(u.model()));
    }
    r
}

/// Render a parsed URL back to its text.
pub open spec fn render_url(u: SpecUrl) -> Seq<char> {
    (if u.https {
        https_scheme()
    } else {
        http_scheme()
    }) + u.host + (match u.port {
        Option::Some(p) => seq![':'] + dec_digits(p),
        Option::None => Seq::<char>::empty(),
    }) + u.path + (match u.query {
        Option::Some(q) => seq!['?'] + q,
        Option::None => Seq::<char>::empty(),
    })
}

pub fn render_url_exec(u: &UrlParts) -> (r: Vec<char>)
    ensures
        r@ == render_url(u.model()),
{
    let mut r: Vec<char> = if u.https {
        lit_https_scheme()
    } else {
        lit_http_scheme()
    };
    extend_vec(&mut r, &u.host);
    match &u.port {
        Option::Some(p) => {
            r.push(':');
            let d = dec_digits_exec(*p as u32);
            extend_vec(&mut r, &d);
        },
        Option::None => {},
    }
    extend_vec(&mut r, &u.path);
    match &u.query {
        Option::Some(q) => {
            r.push('?');
            extend_vec(&mut r, q);
        },
        Option::None => {},
    }
    proof {
        assert(r@ =~= render_url(u.model()));
    }
    r
}

} // verus!

verus! {

/// The host-identifying prefix of a cache path: `/-/`, the `http_` mark for
/// the `http` scheme, the host, and `_` and the port when one is present.
pub open spec fn cache_host_prefix(u: SpecUrl) -> Seq<char> {
    seq!['/', '-', '/'] + (if u.https {
        Seq::<char>::empty()
    } else {
        seq!['h', 't', 't', 'p', '_']
    }) + u.host + (match u.port {
        Option::Some(p) => seq!['_'] + dec_digits(p),
        Option::None => Seq::<char>::empty(),
    })
}

/// Whether a URL path ends in a usable filename, so that the query string
/// lands in the cache filename.
pub open spec fn path_names_file(path: Seq<char>) -> bool {
    let t = path.take(trim_end_idx(path, path.len() as int));
    t.len() > 0 && match srfind(t, t.len() as int, '/') {
        Option::Some(j) => {
            let f = t.skip(j + 1);
            f.len() > 0 && f != dot() && f != dotdot()
        },
        Option::None => false,
    }
}

/// Two remote URLs that differ only in their query string canonicalize to
/// distinct cache paths, both lying under the same host prefix.
#[verifier::rlimit(100)]
#[verifier::spinoff_prover]
pub proof fn lemma_canon_query_distinct(u1: SpecUrl, u2: SpecUrl)
    requires
        u1.https == u2.https,
        u1.host == u2.host,
        u1.port == u2.port,
        u1.path == u2.path,
        u1.query != u2.query,
        path_names_file(u1.path),
    ensures
        canon_remote(u1) != canon_remote(u2),
        cache_host_prefix(u1).is_prefix_of(canon_remote(u1)),
        cache_host_prefix(u1).is_prefix_of(canon_remote(u2)),
{
    let pfx = cache_host_prefix(u1);
    let m1 = munged_path(u1.path, u1.query);
    let m2 = munged_path(u2.path, u2.query);
    assert(canon_remote(u1) =~= pfx + m1);
    assert(canon_remote(u2) =~= pfx + m2);
    let path = u1.path;
    let t = path.take(trim_end_idx(path, path.len() as int));
    lemma_trim_end_idx(path, path.len() as int);
    let j = match srfind(t, t.len() as int, '/') {
        Option::Some(j) => j,
        Option::None => arbitrary(),
    };
    lemma_srfind(t, t.len() as int, '/');
    let fname = t.skip(j + 1);
    let fext = seq!['.'] + chosen_ext(path, fname);
    let stem = strip_rep_suffix(fname, fext);
    let head = t.take(j + 1) + stem;
    assert(m1 =~= head + (match u1.query {
        Option::Some(q) => seq!['_'] + q,
        Option::None => Seq::<char>::empty(),
    }) + fext);
    assert(m2 =~= head + (match u2.query {
        Option::Some(q) => seq!['_'] + q,
        Option::None => Seq::<char>::empty(),
    }) + fext);
    assert(m1 != m2) by {
        match (u1.query, u2.query) {
            (Option::Some(q1), Option::Some(q2)) => {
                if m1 == m2 {
                    lemma_cancel_middle(head, seq!['_'] + q1, seq!['_'] + q2, fext);
                    lemma_cancel_left(seq!['_'], q1, q2);
                }
            },
            (Option::Some(q1), Option::None) => {
                assert(m1.len() == head.len() + 1 + q1.len() + fext.len());
                assert(m2.len() == head.len() + fext.len());
            },
            (Option::None, Option::Some(q2)) => {
                assert(m1.len() == head.len() + fext.len());
                assert(m2.len() == head.len() + 1 + q2.len() + fext.len());
            },
            (Option::None, Option::None) => {
                assert(u1.query == u2.query);
            },
        }
    }
    assert(canon_remote(u1) != canon_remote(u2)) by {
        if canon_remote(u1) == canon_remote(u2) {
            lemma_cancel_left(pfx, m1, m2);
        }
    }
    assert(pfx =~= (pfx + m1).subrange(0, pfx.len() as int));
    assert(pfx =~= (pfx + m2).subrange(0, pfx.len() as int));
}

/// An `http` URL with an explicit port and an `https` URL on the same host
/// canonicalize to distinct cache paths; the former is marked `http_`.
#[verifier::rlimit(100)]
#[verifier::spinoff_prover]
pub proof fn lemma_canon_scheme_distinct(u1: SpecUrl, u2: SpecUrl)
    requires
        !u1.https,
        u2.https,
        u1.host == u2.host,
        u1.host.len() > 0,
        forall|i: int| 0 <= i < u1.host.len() ==> u1.host[i] != '/',
        u1.port is Some,
        u2.port is None,
        u2.path.len() > 0 && u2.path[0] == '/',
    ensures
        seq!['/', '-', '/', 'h', 't', 't', 'p', '_'].is_prefix_of(canon_remote(u1)),
        (seq!['/', '-', '/'] + u2.host).is_prefix_of(canon_remote(u2)),
        canon_remote(u1) != canon_remote(u2),
{
    let h = u1.host;
    let c1 = canon_remote(u1);
    let c2 = canon_remote(u2);
    let m2 = munged_path(u2.path, u2.query);
    assert(c1 =~= seq!['/', '-', '/', 'h', 't', 't', 'p', '_'] + h + (match u1.port {
        Option::Some(p) => seq!['_'] + dec_digits(p),
        Option::None => Seq::<char>::empty(),
    }) + munged_path(u1.path, u1.query));
    assert(c2 =~= (seq!['/', '-', '/'] + h) + m2);
    // the first character of the rewritten path is the path's own slash
    assert(m2.len() > 0 && m2[0] == '/') by {
        let path = u2.path;
        let t = path.take(trim_end_idx(path, path.len() as int));
        lemma_trim_end_idx(path, path.len() as int);
        if t.len() == 0 {
        } else {
            lemma_srfind(t, t.len() as int, '/');
            match srfind(t, t.len() as int, '/') {
                Option::Some(j) => {
                    assert(t[0] == path[0]);
                    assert(t.take(j + 1)[0] == t[0]);
                },
                Option::None => {},
            }
        }
    }
    let ix = 3 + h.len() as int;
    assert(c2[ix] == m2[0]);
    assert(c1.len() > ix && c1[ix] != '/') by {
        let head1 = seq!['/', '-', '/', 'h', 't', 't', 'p', '_'] + h;
        assert(c1.len() >= head1.len());
        if h.len() < 5 {
            assert(c1[ix] == seq!['/', '-', '/', 'h', 't', 't', 'p', '_'][ix]);
        } else {
            assert(c1[ix] == h[h.len() - 5]);
        }
    }
    assert(c1 != c2) by {
        if c1 == c2 {
            assert(c1[ix] == c2[ix]);
        }
    }
    assert(seq!['/', '-', '/', 'h', 't', 't', 'p', '_'] =~= c1.subrange(0, 8));
    assert((seq!['/', '-', '/'] + u2.host) =~= c2.subrange(0, 3 + u2.host.len() as int));
}

} // verus!
