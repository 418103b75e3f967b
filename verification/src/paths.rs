//! Lexical path handling: splitting a slash-separated path into segments,
//! resolving `.` and `..` segments, the local branch of canonicalization,
//! the parent directory of a path, and the relative difference of two paths.
use vstd::prelude::*;
use crate::text::{
    chars_eq, copy_vec, extend_vec, join_with, lemma_join_split, lemma_ssplit_from_len,
    lemma_ssplit_shift, rfind_before, sjoin, split_on, srfind, ssplit, ssplit_from, subvec, views,
    views_drop_last, views_push,
};

verus! {

pub open spec fn dot() -> Seq<char> {
    seq!['.']
}

pub open spec fn dotdot() -> Seq<char> {
    seq!['.', '.']
}

/// A segment that survives normalization: non-empty and neither `.` nor `..`.
pub open spec fn seg_clean(g: Seq<char>) -> bool {
    g.len() > 0 && g != dot() && g != dotdot()
}

/// One step of lexical normalization: empty and `.` segments vanish, `..`
/// removes the previous kept segment when there is one to remove.
pub open spec fn norm_step(acc: Seq<Seq<char>>, g: Seq<char>) -> Seq<Seq<char>> {
    if g.len() == 0 || g == dot() {
        acc
    } else if g == dotdot() {
        if acc.len() > 0 && acc.last() != dotdot() {
            acc.drop_last()
        } else {
            acc.push(dotdot())
        }
    } else {
        acc.push(g)
    }
}

pub open spec fn norm_from(acc: Seq<Seq<char>>, gs: Seq<Seq<char>>, i: int) -> Seq<Seq<char>>
    decreases gs.len() - i,
    when 0 <= i <= gs.len()
{
    if i >= gs.len() {
        acc
    } else {
        norm_from(norm_step(acc, gs[i]), gs, i + 1)
    }
}

/// The segments of a path after lexical resolution of `.` and `..`.
pub open spec fn norm_segs(gs: Seq<Seq<char>>) -> Seq<Seq<char>> {
    norm_from(Seq::empty(), gs, 0)
}

/// A path, normalized lexically and re-joined with `/`.
pub open spec fn norm_str(s: Seq<char>) -> Seq<char> {
    sjoin(norm_segs(ssplit(s, '/')), '/')
}

pub fn is_seg_dot(v: &Vec<char>) -> (r: bool)
    ensures
        r == (v@ == dot()),
{
    let r = v.len() == 1 && v[0] == '.';
    proof {
        if r {
            assert(v@ =~= dot());
        }
    }
    r
}

pub fn is_seg_dotdot(v: &Vec<char>) -> (r: bool)
    ensures
        r == (v@ == dotdot()),
{
    let r = v.len() == 2 && v[0] == '.' && v[1] == '.';
    proof {
        if r {
            assert(v@ =~= dotdot());
        }
    }
    r
}

pub fn norm_segs_exec(gs: &Vec<Vec<char>>) -> (r: Vec<Vec<char>>)
    ensures
        views(r@) == norm_segs(views(gs@)),
{
    let dv: Ghost<Seq<Seq<char>>> = Ghost(views(gs@));
    let mut acc: Vec<Vec<char>> = Vec::new();
    proof {
        assert(views(acc@) =~= Seq::<Seq<char>>::empty());
    }
    let mut i: usize = 0;
    while i < gs.len()
        invariant
            i <= gs.len(),
            dv@ == views(gs@),
            dv@.len() == gs@.len(),
            norm_segs(dv@) == norm_from(views(acc@), dv@, i as int),
        decreases gs.len() - i,
    {
        proof {
            assert(dv@[i as int] == gs@[i as int]@);
        }
        let g = &gs[i];
        if g.len() == 0 || is_seg_dot(g) {
            proof {
                assert(norm_step(views(acc@), dv@[i as int]) == views(acc@));
            }
        } else if is_seg_dotdot(g) {
            let pop = acc.len() > 0 && !is_seg_dotdot(&acc[acc.len() - 1]);
            proof {
                assert(views(acc@).len() == acc@.len());
                if acc@.len() > 0 {
                    assert(views(acc@).last() == acc@[acc@.len() - 1]@);
                }
            }
            if pop {
                proof {
                    views_drop_last(acc@);
                }
                acc.pop();
            } else {
                let g2 = copy_vec(g);
                proof {
                    views_push(acc@, g2);
                }
                acc.push(g2);
            }
        } else {
            let g2 = copy_vec(g);
            proof {
                views_push(acc@, g2);
                assert(norm_step(views(acc@), dv@[i as int]) == views(acc@).push(g2@));
            }
            acc.push(g2);
        }
        i = i + 1;
    }
    acc
}

pub fn norm_str_exec(v: &Vec<char>) -> (r: Vec<char>)
    ensures
        r@ == norm_str(v@),
{
    let parts = split_on(v, '/');
    let normed = norm_segs_exec(&parts);
    let r = join_with(&normed, 0, '/');
    proof {
        assert(views(normed@).skip(0) =~= views(normed@));
    }
    r
}

/// Normalization leaves a run of plain segments alone.
pub proof fn lemma_norm_from_clean(acc: Seq<Seq<char>>, gs: Seq<Seq<char>>, i: int)
    requires
        0 <= i <= gs.len(),
        forall|j: int| i <= j < gs.len() ==> seg_clean(#[trigger] gs[j]),
    ensures
        norm_from(acc, gs, i) == acc + gs.skip(i),
    decreases gs.len() - i,
{
    if i >= gs.len() {
        assert(acc + gs.skip(i) =~= acc);
    } else {
        assert(seg_clean(gs[i]));
        assert(norm_step(acc, gs[i]) == acc.push(gs[i]));
        lemma_norm_from_clean(acc.push(gs[i]), gs, i + 1);
        assert(acc.push(gs[i]) + gs.skip(i + 1) =~= acc + gs.skip(i));
    }
}

/// The number of `..` segments among `gs[i..k]`.
pub open spec fn dd_in(gs: Seq<Seq<char>>, i: int, k: int) -> int
    decreases k - i,
    when 0 <= i <= k
{
    if i >= k {
        0
    } else {
        (if gs[i] == dotdot() {
            1int
        } else {
            0int
        }) + dd_in(gs, i + 1, k)
    }
}

/// The number of plain segments among `gs[i..k]`.
pub open spec fn cl_in(gs: Seq<Seq<char>>, i: int, k: int) -> int
    decreases k - i,
    when 0 <= i <= k
{
    if i >= k {
        0
    } else {
        (if seg_clean(gs[i]) {
            1int
        } else {
            0int
        }) + cl_in(gs, i + 1, k)
    }
}

proof fn lemma_norm_no_updirs(acc: Seq<Seq<char>>, gs: Seq<Seq<char>>, i: int)
    requires
        0 <= i <= gs.len(),
        forall|j: int| 0 <= j < acc.len() ==> seg_clean(#[trigger] acc[j]),
        forall|k: int| i <= k <= gs.len() ==> #[trigger] dd_in(gs, i, k) <= acc.len() + cl_in(gs, i, k),
    ensures
        forall|j: int|
            0 <= j < norm_from(acc, gs, i).len() ==> seg_clean(#[trigger] norm_from(acc, gs, i)[j]),
    decreases gs.len() - i,
{
    if i >= gs.len() {
        assert(norm_from(acc, gs, i) == acc);
    } else {
        let g = gs[i];
        let acc2 = norm_step(acc, g);
        assert(norm_from(acc, gs, i) == norm_from(acc2, gs, i + 1));
        assert(dot().len() == 1);
        assert(dotdot().len() == 2);
        if g.len() == 0 || g == dot() {
            assert(acc2 == acc);
            assert(g != dotdot());
            assert(!seg_clean(g));
            assert forall|k: int| i + 1 <= k <= gs.len() implies #[trigger] dd_in(gs, i + 1, k)
                <= acc2.len() + cl_in(gs, i + 1, k) by {
                assert(dd_in(gs, i, k) == (if gs[i] == dotdot() {
                    1int
                } else {
                    0int
                }) + dd_in(gs, i + 1, k));
                assert(cl_in(gs, i, k) == (if seg_clean(gs[i]) {
                    1int
                } else {
                    0int
                }) + cl_in(gs, i + 1, k));
                assert(dd_in(gs, i, k) <= acc.len() + cl_in(gs, i, k));
            }
            lemma_norm_no_updirs(acc2, gs, i + 1);
        } else if g == dotdot() {
            assert(dd_in(gs, i, i + 1) == (if gs[i] == dotdot() {
                1int
            } else {
                0int
            }) + dd_in(gs, i + 1, i + 1));
            assert(dd_in(gs, i + 1, i + 1) == 0);
            assert(cl_in(gs, i, i + 1) == (if seg_clean(gs[i]) {
                1int
            } else {
                0int
            }) + cl_in(gs, i + 1, i + 1));
            assert(cl_in(gs, i + 1, i + 1) == 0);
            assert(dd_in(gs, i, i + 1) <= acc.len() + cl_in(gs, i, i + 1));
            assert(acc.len() >= 1);
            assert(seg_clean(acc[acc.len() - 1]));
            assert(acc.last() != dotdot());
            assert(acc2 == acc.drop_last());
            assert forall|j: int| 0 <= j < acc2.len() implies seg_clean(#[trigger] acc2[j]) by {
                assert(acc2[j] == acc[j]);
            }
            assert forall|k: int| i + 1 <= k <= gs.len() implies #[trigger] dd_in(gs, i + 1, k)
                <= acc2.len() + cl_in(gs, i + 1, k) by {
                assert(dd_in(gs, i, k) == (if gs[i] == dotdot() {
                    1int
                } else {
                    0int
                }) + dd_in(gs, i + 1, k));
                assert(cl_in(gs, i, k) == (if seg_clean(gs[i]) {
                    1int
                } else {
                    0int
                }) + cl_in(gs, i + 1, k));
                assert(dd_in(gs, i, k) <= acc.len() + cl_in(gs, i, k));
            }
            lemma_norm_no_updirs(acc2, gs, i + 1);
        } else {
            assert(seg_clean(g));
            assert(acc2 == acc.push(g));
            assert forall|j: int| 0 <= j < acc2.len() implies seg_clean(#[trigger] acc2[j]) by {
                if j < acc.len() {
                    assert(acc2[j] == acc[j]);
                } else {
                    assert(acc2[j] == g);
                }
            }
            assert forall|k: int| i + 1 <= k <= gs.len() implies #[trigger] dd_in(gs, i + 1, k)
                <= acc2.len() + cl_in(gs, i + 1, k) by {
                assert(dd_in(gs, i, k) == (if gs[i] == dotdot() {
                    1int
                } else {
                    0int
                }) + dd_in(gs, i + 1, k));
                assert(cl_in(gs, i, k) == (if seg_clean(gs[i]) {
                    1int
                } else {
                    0int
                }) + cl_in(gs, i + 1, k));
                assert(dd_in(gs, i, k) <= acc.len() + cl_in(gs, i, k));
            }
            lemma_norm_no_updirs(acc2, gs, i + 1);
        }
    }
}

/// Lexical normalization fully collapses a path's special segments: when no
/// `..` walks above the available ancestry, every normalized segment is
/// plain, with every empty, `.` and `..` segment resolved away.
pub proof fn lemma_collapse(s: Seq<char>)
    requires
        forall|k: int|
            0 <= k <= ssplit(s, '/').len() ==> #[trigger] dd_in(ssplit(s, '/'), 0, k) <= cl_in(
                ssplit(s, '/'),
                0,
                k,
            ),
    ensures
        forall|j: int|
            0 <= j < norm_segs(ssplit(s, '/')).len() ==> seg_clean(
                #[trigger] norm_segs(ssplit(s, '/'))[j],
            ),
{
    lemma_norm_no_updirs(Seq::empty(), ssplit(s, '/'), 0);
}

/// Splitting a path whose text starts with a marker: the unfolding facts
/// that connect the first characters of the text with its first segment.
proof fn lemma_ssplit_head(s: Seq<char>)
    requires
        s.len() > 0,
    ensures
        s[0] == '/' ==> ssplit(s, '/') == seq![Seq::<char>::empty()] + ssplit_from(s, 1, '/', Seq::empty()),
        s[0] != '/' ==> ssplit(s, '/') == ssplit_from(s, 1, '/', seq![s[0]]),
{
    assert(Seq::<char>::empty().push(s[0]) =~= seq![s[0]]);
}

/// Canonicalization of a local path is the identity when the path is already
/// canonical: every segment after the leading marker (`/`, `./` or `../`) is
/// non-empty and neither `.` nor `..`, and a bare path has only such
/// segments.
pub proof fn lemma_canon_local_identity(s: Seq<char>)
    requires
        ({
            let gs = ssplit(s, '/');
            &&& forall|j: int| 1 <= j < gs.len() ==> seg_clean(#[trigger] gs[j])
            &&& (seg_clean(gs[0]) || ((gs[0] == Seq::<char>::empty() || gs[0] == dot() || gs[0]
                == dotdot()) && gs.len() >= 2))
        }),
    ensures
        canon_local(s) == s,
{
    let gs = ssplit(s, '/');
    lemma_ssplit_from_len(s, 0, '/', Seq::empty());
    lemma_join_split(s, '/');
    assert(dot().len() == 1);
    assert(dotdot().len() == 2);
    if seg_clean(gs[0]) {
        // the bare or degenerate first-segment case: no marker is involved
        assert(s.len() > 0) by {
            if s.len() == 0 {
                assert(ssplit_from(s, 0, '/', Seq::<char>::empty()) == seq![Seq::<char>::empty()]);
            }
        }
        lemma_ssplit_head(s);
        assert(s[0] != '/') by {
            if s[0] == '/' {
                lemma_ssplit_from_len(s, 1, '/', Seq::empty());
                assert(gs[0] == Seq::<char>::empty());
            }
        }
        assert(!starts_dot_slash(s)) by {
            if starts_dot_slash(s) {
                assert(ssplit(s, '/') == ssplit_from(s, 1, '/', seq![s[0]]));
                assert(ssplit_from(s, 1, '/', seq!['.']) == seq![seq!['.']] + ssplit_from(
                    s,
                    2,
                    '/',
                    Seq::empty(),
                ));
                lemma_ssplit_from_len(s, 2, '/', Seq::empty());
                assert(gs[0] =~= dot());
            }
        }
        assert(!starts_dotdot_slash(s)) by {
            if starts_dotdot_slash(s) {
                assert(ssplit(s, '/') == ssplit_from(s, 1, '/', seq![s[0]]));
                assert(ssplit_from(s, 1, '/', seq!['.']) == ssplit_from(
                    s,
                    2,
                    '/',
                    seq!['.'].push(s[1]),
                ));
                assert(seq!['.'].push('.') =~= dotdot());
                assert(ssplit_from(s, 2, '/', dotdot()) == seq![dotdot()] + ssplit_from(
                    s,
                    3,
                    '/',
                    Seq::empty(),
                ));
                lemma_ssplit_from_len(s, 3, '/', Seq::empty());
                assert(gs[0] =~= dotdot());
            }
        }
        assert(canon_local(s) == norm_str(s));
        assert(forall|j: int| 0 <= j < gs.len() ==> seg_clean(#[trigger] gs[j]));
        lemma_norm_from_clean(Seq::empty(), gs, 0);
        assert(Seq::<Seq<char>>::empty() + gs.skip(0) =~= gs);
        assert(norm_str(s) == sjoin(gs, '/'));
    } else if gs[0] == Seq::<char>::empty() {
        // absolute path: the first segment is the empty text before `/`
        let rest = gs.drop_first();
        assert(sjoin(gs, '/') == gs[0] + seq!['/'] + sjoin(rest, '/'));
        let tail = sjoin(rest, '/');
        assert(s == Seq::<char>::empty() + seq!['/'] + tail);
        assert(s.len() >= 1 && s[0] == '/');
        assert(!starts_dot_slash(s) && !starts_dotdot_slash(s) && starts_slash(s));
        assert(canon_local(s) == seq!['/'] + norm_str(s));
        lemma_ssplit_head(s);
        assert(gs == seq![Seq::<char>::empty()] + ssplit_from(s, 1, '/', Seq::empty()));
        assert(norm_segs(gs) == norm_from(Seq::empty(), gs, 1)) by {
            assert(norm_step(Seq::empty(), gs[0]) == Seq::<Seq<char>>::empty());
        }
        lemma_norm_from_clean(Seq::empty(), gs, 1);
        assert(Seq::<Seq<char>>::empty() + gs.skip(1) =~= rest);
        assert(canon_local(s) =~= s);
    } else if gs[0] == dot() {
        let rest = gs.drop_first();
        assert(sjoin(gs, '/') == gs[0] + seq!['/'] + sjoin(rest, '/'));
        let tail = sjoin(rest, '/');
        assert(s == dot() + seq!['/'] + tail);
        assert(s.len() >= 2 && s[0] == '.' && s[1] == '/');
        assert(starts_dot_slash(s));
        assert(dots_end(s, 0) == dots_end(s, 1));
        assert(dots_end(s, 1) == 1);
        let t = s.skip(1);
        assert(canon_local(s) == seq!['.', '/'] + norm_str(t));
        // the split of the stripped text is the empty segment and the rest
        assert(t.len() >= 1 && t[0] == '/');
        lemma_ssplit_head(t);
        lemma_ssplit_shift(t, 1, '/', Seq::empty());
        assert(gs == ssplit_from(s, 1, '/', seq!['.']));
        assert(ssplit_from(s, 1, '/', seq!['.']) == seq![seq!['.']] + ssplit_from(
            s,
            2,
            '/',
            Seq::empty(),
        ));
        lemma_ssplit_shift(s, 2, '/', Seq::empty());
        assert(t.skip(1) =~= s.skip(2));
        assert(seq![seq!['.']][0] =~= dot());
        assert(rest =~= ssplit(s.skip(2), '/'));
        let lt = ssplit(t, '/');
        assert(lt == seq![Seq::<char>::empty()] + rest);
        assert(norm_segs(lt) == norm_from(Seq::empty(), lt, 1)) by {
            assert(norm_step(Seq::empty(), lt[0]) == Seq::<Seq<char>>::empty());
        }
        assert(forall|j: int| 1 <= j < lt.len() ==> seg_clean(#[trigger] lt[j])) by {
            assert(forall|j: int| 1 <= j < lt.len() ==> lt[j] == gs[j]);
        }
        lemma_norm_from_clean(Seq::empty(), lt, 1);
        assert(Seq::<Seq<char>>::empty() + lt.skip(1) =~= rest);
        assert(norm_str(t) == tail);
        assert(canon_local(s) =~= s);
    } else {
        // the first segment is `..`
        let rest = gs.drop_first();
        assert(sjoin(gs, '/') == gs[0] + seq!['/'] + sjoin(rest, '/'));
        let tail = sjoin(rest, '/');
        assert(s == dotdot() + seq!['/'] + tail);
        assert(s.len() >= 3 && s[0] == '.' && s[1] == '.' && s[2] == '/');
        assert(!starts_dot_slash(s) && starts_dotdot_slash(s));
        assert(dotdots_end(s, 0) == dotdots_end(s, 2));
        assert(dotdots_end(s, 2) == 2);
        let t = s.skip(2);
        assert(canon_local(s) == seq!['.', '.', '/'] + norm_str(t));
        assert(t.len() >= 1 && t[0] == '/');
        lemma_ssplit_head(t);
        lemma_ssplit_shift(t, 1, '/', Seq::empty());
        assert(gs == ssplit_from(s, 1, '/', seq!['.']));
        assert(ssplit_from(s, 1, '/', seq!['.']) == ssplit_from(s, 2, '/', seq!['.'].push(s[1])));
        assert(seq!['.'].push('.') =~= dotdot());
        assert(ssplit_from(s, 2, '/', dotdot()) == seq![dotdot()] + ssplit_from(
            s,
            3,
            '/',
            Seq::empty(),
        ));
        lemma_ssplit_shift(s, 3, '/', Seq::empty());
        assert(t.skip(1) =~= s.skip(3));
        assert(rest =~= ssplit(s.skip(3), '/'));
        let lt = ssplit(t, '/');
        assert(lt == seq![Seq::<char>::empty()] + rest);
        assert(norm_segs(lt) == norm_from(Seq::empty(), lt, 1)) by {
            assert(norm_step(Seq::empty(), lt[0]) == Seq::<Seq<char>>::empty());
        }
        assert(forall|j: int| 1 <= j < lt.len() ==> seg_clean(#[trigger] lt[j])) by {
            assert(forall|j: int| 1 <= j < lt.len() ==> lt[j] == gs[j]);
        }
        lemma_norm_from_clean(Seq::empty(), lt, 1);
        assert(Seq::<Seq<char>>::empty() + lt.skip(1) =~= rest);
        assert(norm_str(t) == tail);
        assert(canon_local(s) =~= s);
    }
}

/// Where the run of leading `.` characters ends.
pub open spec fn dots_end(s: Seq<char>, i: int) -> int
    decreases s.len() - i,
    when 0 <= i <= s.len()
{
    if i < s.len() && s[i] == '.' {
        dots_end(s, i + 1)
    } else {
        i
    }
}

pub proof fn lemma_dots_end(s: Seq<char>, i: int)
    requires
        0 <= i <= s.len(),
    ensures
        i <= dots_end(s, i) <= s.len(),
    decreases s.len() - i,
{
    if i < s.len() && s[i] == '.' {
        lemma_dots_end(s, i + 1);
    }
}

/// Where the run of leading `..` pairs ends.
pub open spec fn dotdots_end(s: Seq<char>, i: int) -> int
    decreases s.len() - i,
    when 0 <= i <= s.len()
{
    if i + 1 < s.len() && s[i] == '.' && s[i + 1] == '.' {
        dotdots_end(s, i + 2)
    } else {
        i
    }
}

pub proof fn lemma_dotdots_end(s: Seq<char>, i: int)
    requires
        0 <= i <= s.len(),
    ensures
        i <= dotdots_end(s, i) <= s.len(),
    decreases s.len() - i,
{
    if i + 1 < s.len() && s[i] == '.' && s[i + 1] == '.' {
        lemma_dotdots_end(s, i + 2);
    }
}

pub open spec fn starts_dot_slash(s: Seq<char>) -> bool {
    s.len() >= 2 && s[0] == '.' && s[1] == '/'
}

pub open spec fn starts_dotdot_slash(s: Seq<char>) -> bool {
    s.len() >= 3 && s[0] == '.' && s[1] == '.' && s[2] == '/'
}

pub open spec fn starts_slash(s: Seq<char>) -> bool {
    s.len() >= 1 && s[0] == '/'
}

/// The local branch of canonicalization: normalize lexically, preserving the
/// original relative or absolute marker of the path.
pub open spec fn canon_local(s: Seq<char>) -> Seq<char> {
    if starts_dot_slash(s) {
        seq!['.', '/'] + norm_str(s.skip(dots_end(s, 0)))
    } else if starts_dotdot_slash(s) {
        seq!['.', '.', '/'] + norm_str(s.skip(dotdots_end(s, 0)))
    } else if starts_slash(s) {
        seq!['/'] + norm_str(s)
    } else {
        norm_str(s)
    }
}

pub fn starts_dot_slash_exec(v: &Vec<char>) -> (r: bool)
    ensures
        r == starts_dot_slash(v@),
{
    v.len() >= 2 && v[0] == '.' && v[1] == '/'
}

pub fn starts_dotdot_slash_exec(v: &Vec<char>) -> (r: bool)
    ensures
        r == starts_dotdot_slash(v@),
{
    v.len() >= 3 && v[0] == '.' && v[1] == '.' && v[2] == '/'
}

pub fn starts_slash_exec(v: &Vec<char>) -> (r: bool)
    ensures
        r == starts_slash(v@),
{
    v.len() >= 1 && v[0] == '/'
}

fn dots_end_exec(v: &Vec<char>) -> (r: usize)
    ensures
        r == dots_end(v@, 0),
        r <= v.len(),
{
    let mut i: usize = 0;
    while i < v.len() && v[i] == '.'
        invariant
            i <= v.len(),
            dots_end(v@, 0) == dots_end(v@, i as int),
        decreases v.len() - i,
    {
        i = i + 1;
    }
    proof {
        lemma_dots_end(v@, i as int);
    }
    i
}

fn dotdots_end_exec(v: &Vec<char>) -> (r: usize)
    ensures
        r == dotdots_end(v@, 0),
        r <= v.len(),
{
    let mut i: usize = 0;
    while i < v.len() && i + 1 < v.len() && v[i] == '.' && v[i + 1] == '.'
        invariant
            i <= v.len(),
            dotdots_end(v@, 0) == dotdots_end(v@, i as int),
        decreases v.len() - i,
    {
        i = i + 2;
    }
    proof {
        lemma_dotdots_end(v@, i as int);
    }
    i
}

pub fn canon_local_exec(v: &Vec<char>) -> (r: Vec<char>)
    ensures
        r@ == canon_local(v@),
{
    if starts_dot_slash_exec(v) {
        let k = dots_end_exec(v);
        let rest = subvec(v, k, v.len());
        assert(rest@ =~= v@.skip(dots_end(v@, 0)));
        let normed = norm_str_exec(&rest);
        let mut r: Vec<char> = Vec::new();
        r.push('.');
        r.push('/');
        extend_vec(&mut r, &normed);
        assert(r@ =~= seq!['.', '/'] + norm_str(v@.skip(dots_end(v@, 0))));
        r
    } else if starts_dotdot_slash_exec(v) {
        let k = dotdots_end_exec(v);
        let rest = subvec(v, k, v.len());
        assert(rest@ =~= v@.skip(dotdots_end(v@, 0)));
        let normed = norm_str_exec(&rest);
        let mut r: Vec<char> = Vec::new();
        r.push('.');
        r.push('.');
        r.push('/');
        extend_vec(&mut r, &normed);
        assert(r@ =~= seq!['.', '.', '/'] + norm_str(v@.skip(dotdots_end(v@, 0))));
        r
    } else if starts_slash_exec(v) {
        let normed = norm_str_exec(v);
        let mut r: Vec<char> = Vec::new();
        r.push('/');
        extend_vec(&mut r, &normed);
        assert(r@ =~= seq!['/'] + norm_str(v@));
        r
    } else {
        norm_str_exec(v)
    }
}

/// Where the run of trailing `/` characters begins.
pub open spec fn trim_end_idx(s: Seq<char>, i: int) -> int
    decreases i,
    when 0 <= i <= s.len()
{
    if i > 0 && s[i - 1] == '/' {
        trim_end_idx(s, i - 1)
    } else {
        i
    }
}

pub proof fn lemma_trim_end_idx(s: Seq<char>, i: int)
    requires
        0 <= i <= s.len(),
    ensures
        0 <= trim_end_idx(s, i) <= i,
    decreases i,
{
    if i > 0 && s[i - 1] == '/' {
        lemma_trim_end_idx(s, i - 1);
    }
}

/// The directory holding a path: trailing slashes are ignored, the last
/// component is removed, and the root and the empty path are their own parent.
pub open spec fn parent_dir(s: Seq<char>) -> Seq<char> {
    let t = s.take(trim_end_idx(s, s.len() as int));
    if t.len() == 0 {
        if s.len() == 0 {
            s
        } else {
            seq!['/']
        }
    } else {
        match srfind(t, t.len() as int, '/') {
            Option::None => Seq::empty(),
            Option::Some(j) => if j == 0 {
                seq!['/']
            } else {
                t.take(j)
            },
        }
    }
}

pub fn parent_dir_exec(v: &Vec<char>) -> (r: Vec<char>)
    ensures
        r@ == parent_dir(v@),
{
    let mut e: usize = v.len();
    while e > 0 && v[e - 1] == '/'
        invariant
            e <= v.len(),
            trim_end_idx(v@, v@.len() as int) == trim_end_idx(v@, e as int),
        decreases e,
    {
        e = e - 1;
    }
    let t = subvec(v, 0, e);
    assert(t@ == v@.take(trim_end_idx(v@, v@.len() as int)));
    if t.len() == 0 {
        let mut r: Vec<char> = Vec::new();
        if v.len() > 0 {
            r.push('/');
            assert(r@ =~= seq!['/']);
        }
        return r;
    }
    match rfind_before(&t, t.len(), '/') {
        Option::None => Vec::new(),
        Option::Some(j) => {
            if j == 0 {
                let mut r: Vec<char> = Vec::new();
                r.push('/');
                assert(r@ =~= seq!['/']);
                r
            } else {
                let r = subvec(&t, 0, j);
                assert(r@ =~= t@.take(j as int));
                r
            }
        },
    }
}

/// The segments of a path with empty and `.` segments removed, as the
/// component view used by the relative-difference computation.
pub open spec fn keep_solid(gs: Seq<Seq<char>>, i: int) -> Seq<Seq<char>>
    decreases gs.len() - i,
    when 0 <= i <= gs.len()
{
    if i >= gs.len() {
        Seq::empty()
    } else if gs[i].len() > 0 && gs[i] != dot() {
        seq![gs[i]] + keep_solid(gs, i + 1)
    } else {
        keep_solid(gs, i + 1)
    }
}

pub open spec fn solid_segs(s: Seq<char>) -> Seq<Seq<char>> {
    keep_solid(ssplit(s, '/'), 0)
}

pub fn solid_segs_exec(v: &Vec<char>) -> (r: Vec<Vec<char>>)
    ensures
        views(r@) == solid_segs(v@),
{
    let parts = split_on(v, '/');
    let dv: Ghost<Seq<Seq<char>>> = Ghost(views(parts@));
    let mut out: Vec<Vec<char>> = Vec::new();
    let mut i: usize = 0;
    while i < parts.len()
        invariant
            i <= parts.len(),
            dv@ == views(parts@),
            dv@.len() == parts@.len(),
            keep_solid(dv@, 0) == views(out@) + keep_solid(dv@, i as int),
        decreases parts.len() - i,
    {
        proof {
            assert(dv@[i as int] == parts@[i as int]@);
        }
        let g = &parts[i];
        if g.len() > 0 && !is_seg_dot(g) {
            let g2 = copy_vec(g);
            proof {
                views_push(out@, g2);
                assert(views(out@) + (seq![dv@[i as int]] + keep_solid(dv@, i + 1)) =~= views(
                    out@.push(g2),
                ) + keep_solid(dv@, i + 1));
            }
            out.push(g2);
        }
        i = i + 1;
    }
    proof {
        assert(views(out@) + keep_solid(dv@, parts@.len() as int) =~= views(out@));
    }
    out
}

/// The length of the common prefix of two segment lists, from `i` on.
pub open spec fn common_from(a: Seq<Seq<char>>, b: Seq<Seq<char>>, i: int) -> int
    decreases a.len() - i,
    when 0 <= i <= a.len()
{
    if i < a.len() && i < b.len() && a[i] == b[i] {
        common_from(a, b, i + 1)
    } else {
        i
    }
}

pub proof fn lemma_common_from(a: Seq<Seq<char>>, b: Seq<Seq<char>>, i: int)
    requires
        0 <= i <= a.len(),
    ensures
        i <= common_from(a, b, i) <= a.len(),
        common_from(a, b, i) <= b.len() || common_from(a, b, i) == i,
    decreases a.len() - i,
{
    if i < a.len() && i < b.len() && a[i] == b[i] {
        lemma_common_from(a, b, i + 1);
    }
}

/// `n` copies of the `..` segment.
pub open spec fn updirs(n: int) -> Seq<Seq<char>> {
    Seq::new(n as nat, |i: int| dotdot())
}

/// The relative path that leads from directory `b` to `p`, when one exists:
/// the common prefix of their component lists is dropped, each remaining
/// component of `b` becomes `..`, and the remaining components of `p` follow.
pub open spec fn rel_diff(p: Seq<char>, b: Seq<char>) -> Option<Seq<char>> {
    if starts_slash(p) != starts_slash(b) {
        if starts_slash(p) {
            Some(p)
        } else {
            None
        }
    } else {
        let ps = solid_segs(p);
        let bs = solid_segs(b);
        let k = common_from(ps, bs, 0);
        let pr = ps.skip(k);
        let br = bs.skip(if k <= bs.len() {
            k
        } else {
            bs.len() as int
        });
        if pr.len() == 0 {
            Some(sjoin(updirs(br.len() as int), '/'))
        } else if br.len() == 0 {
            Some(sjoin(pr, '/'))
        } else if br[0] == dotdot() {
            None
        } else {
            Some(sjoin(updirs(br.len() as int) + pr, '/'))
        }
    }
}

pub fn rel_diff_exec(p: &Vec<char>, b: &Vec<char>) -> (r: Option<Vec<char>>)
    ensures
        match r {
            Some(v) => rel_diff(p@, b@) == Some(v@),
            None => rel_diff(p@, b@) is None,
        },
{
    let pa = starts_slash_exec(p);
    let ba = starts_slash_exec(b);
    if pa != ba {
        if pa {
            return Some(copy_vec(p));
        } else {
            return None;
        }
    }
    let ps = solid_segs_exec(p);
    let bs = solid_segs_exec(b);
    let psv: Ghost<Seq<Seq<char>>> = Ghost(views(ps@));
    let bsv: Ghost<Seq<Seq<char>>> = Ghost(views(bs@));
    let mut k: usize = 0;
    while k < ps.len() && k < bs.len() && chars_eq(&ps[k], &bs[k])
        invariant
            k <= ps.len(),
            psv@ == views(ps@),
            bsv@ == views(bs@),
            psv@.len() == ps@.len(),
            bsv@.len() == bs@.len(),
            common_from(psv@, bsv@, 0) == common_from(psv@, bsv@, k as int),
        decreases ps.len() - k,
    {
        proof {
            assert(psv@[k as int] == ps@[k as int]@);
            assert(bsv@[k as int] == bs@[k as int]@);
        }
        k = k + 1;
    }
    proof {
        if k < psv@.len() && k < bsv@.len() {
            assert(psv@[k as int] == ps@[k as int]@);
            assert(bsv@[k as int] == bs@[k as int]@);
        }
    }
    let mut comps: Vec<Vec<char>> = Vec::new();
    if k >= ps.len() {
        // only `..` entries, one per remaining base component
        let mut j: usize = k;
        while j < bs.len()
            invariant
                k <= j,
                j <= bs.len() || j == k,
                bsv@ == views(bs@),
                views(comps@) =~= updirs(j - k),
            decreases bs.len() - j,
        {
            let mut dd: Vec<char> = Vec::new();
            dd.push('.');
            dd.push('.');
            assert(dd@ =~= dotdot());
            proof {
                views_push(comps@, dd);
                assert(views(comps@).push(dd@) =~= updirs(j + 1 - k));
            }
            comps.push(dd);
            j = j + 1;
        }
        proof {
            let kk = common_from(psv@, bsv@, 0);
            assert(psv@.skip(kk).len() == 0);
            if kk <= bsv@.len() {
                assert(updirs((j - k) as int) =~= updirs(bsv@.skip(kk).len() as int));
            } else {
                assert(j == k);
                assert(updirs(0) =~= updirs(bsv@.skip(bsv@.len() as int).len() as int));
            }
        }
        let r = join_with(&comps, 0, '/');
        proof {
            assert(views(comps@).skip(0) =~= views(comps@));
        }
        return Some(r);
    }
    // a path component remains
    if k < bs.len() {
        if is_seg_dotdot(&bs[k]) {
            proof {
                assert(bsv@[k as int] == bs@[k as int]@);
            }
            return None;
        }
        proof {
            assert(bsv@[k as int] == bs@[k as int]@);
        }
        let mut j: usize = k;
        while j < bs.len()
            invariant
                k <= j <= bs.len(),
                bsv@ == views(bs@),
                views(comps@) =~= updirs(j - k),
            decreases bs.len() - j,
        {
            let mut dd: Vec<char> = Vec::new();
            dd.push('.');
            dd.push('.');
            assert(dd@ =~= dotdot());
            proof {
                views_push(comps@, dd);
                assert(views(comps@).push(dd@) =~= updirs(j + 1 - k));
            }
            comps.push(dd);
            j = j + 1;
        }
    }
    let mut j2: usize = k;
    let base_len: Ghost<int> = Ghost(views(comps@).len() as int);
    proof {
        assert(views(comps@) =~= updirs(base_len@));
    }
    while j2 < ps.len()
        invariant
            k <= j2 <= ps.len(),
            psv@ == views(ps@),
            psv@.len() == ps@.len(),
            views(comps@) =~= updirs(base_len@) + psv@.subrange(k as int, j2 as int),
        decreases ps.len() - j2,
    {
        let g2 = copy_vec(&ps[j2]);
        proof {
            assert(psv@[j2 as int] == ps@[j2 as int]@);
            views_push(comps@, g2);
            assert(views(comps@).push(g2@) =~= updirs(base_len@) + psv@.subrange(
                k as int,
                j2 + 1,
            ));
        }
        comps.push(g2);
        j2 = j2 + 1;
    }
    proof {
        let kk = common_from(psv@, bsv@, 0);
        lemma_common_from(psv@, bsv@, 0);
        assert(psv@.subrange(k as int, psv@.len() as int) =~= psv@.skip(kk));
        if k < bsv@.len() {
            assert(updirs(base_len@) + psv@.skip(kk) =~= updirs(bsv@.skip(kk).len() as int)
                + psv@.skip(kk));
        } else {
            assert(bsv@.skip(kk).len() == 0);
            assert(updirs(0) + psv@.skip(kk) =~= psv@.skip(kk));
            assert(views(comps@) =~= psv@.skip(kk));
        }
    }
    let r = join_with(&comps, 0, '/');
    proof {
        assert(views(comps@).skip(0) =~= views(comps@));
    }
    Some(r)
}

} // verus!
