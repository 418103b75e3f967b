//! Character-sequence primitives shared by the whole crate: concatenation,
//! slicing, searching, splitting on a separator and joining with one, plus
//! the lemmas that relate splitting and joining.
use vstd::prelude::*;

verus! {

/// The views of a sequence of character vectors.
pub open spec fn views(vs: Seq<Vec<char>>) -> Seq<Seq<char>> {
    vs.map_values(|v: Vec<char>| v@)
}

pub proof fn views_push(vs: Seq<Vec<char>>, x: Vec<char>)
    ensures
        views(vs.push(x)) == views(vs).push(x@),
{
    assert(views(vs.push(x)) =~= views(vs).push(x@));
}

pub proof fn views_drop_last(vs: Seq<Vec<char>>)
    requires
        vs.len() > 0,
    ensures
        views(vs.drop_last()) == views(vs).drop_last(),
{
    assert(views(vs.drop_last()) =~= views(vs).drop_last());
}

/// Append the contents of `b` to `r`.
pub fn extend_vec(r: &mut Vec<char>, b: &Vec<char>)
    ensures
        final(r)@ == old(r)@ + b@,
{
    let mut i: usize = 0;
    while i < b.len()
        invariant
            i <= b.len(),
            r@ == old(r)@ + b@.subrange(0, i as int),
        decreases b.len() - i,
    {
        r.push(b[i]);
        assert(old(r)@ + b@.subrange(0, i as int) + seq![b@[i as int]] =~= old(r)@ + b@.subrange(
            0,
            i + 1,
        ));
        i = i + 1;
    }
    assert(b@.subrange(0, b@.len() as int) =~= b@);
}

/// The concatenation of two character vectors.
pub fn cat(a: &Vec<char>, b: &Vec<char>) -> (r: Vec<char>)
    ensures
        r@ == a@ + b@,
{
    let mut r: Vec<char> = Vec::new();
    extend_vec(&mut r, a);
    extend_vec(&mut r, b);
    assert(r@ =~= a@ + b@);
    r
}

/// A copy of `v[i..j]`.
pub fn subvec(v: &Vec<char>, i: usize, j: usize) -> (r: Vec<char>)
    requires
        i <= j <= v.len(),
    ensures
        r@ == v@.subrange(i as int, j as int),
{
    let mut r: Vec<char> = Vec::new();
    let mut k: usize = i;
    while k < j
        invariant
            i <= k <= j <= v.len(),
            r@ == v@.subrange(i as int, k as int),
        decreases j - k,
    {
        r.push(v[k]);
        assert(v@.subrange(i as int, k as int) + seq![v@[k as int]] =~= v@.subrange(
            i as int,
            k + 1,
        ));
        k = k + 1;
    }
    r
}

/// A copy of the whole vector.
pub fn copy_vec(v: &Vec<char>) -> (r: Vec<char>)
    ensures
        r@ == v@,
{
    let r = subvec(v, 0, v.len());
    assert(v@.subrange(0, v@.len() as int) =~= v@);
    r
}

/// Whether `p` is a prefix of `v`.
pub fn has_prefix(v: &Vec<char>, p: &Vec<char>) -> (b: bool)
    ensures
        b == p@.is_prefix_of(v@),
{
    if p.len() > v.len() {
        return false;
    }
    let mut i: usize = 0;
    while i < p.len()
        invariant
            i <= p.len() <= v.len(),
            forall|k: int| 0 <= k < i ==> v@[k] == p@[k],
        decreases p.len() - i,
    {
        if v[i] != p[i] {
            assert(!p@.is_prefix_of(v@)) by {
                if p@.is_prefix_of(v@) {
                    assert(p@[i as int] == v@.subrange(0, p@.len() as int)[i as int]);
                }
            }
            return false;
        }
        i = i + 1;
    }
    assert(p@ =~= v@.subrange(0, p@.len() as int));
    true
}

/// Whether `p` is a suffix of `v`.
pub fn has_suffix(v: &Vec<char>, p: &Vec<char>) -> (b: bool)
    ensures
        b == p@.is_suffix_of(v@),
{
    if p.len() > v.len() {
        return false;
    }
    let off = v.len() - p.len();
    let mut i: usize = 0;
    while i < p.len()
        invariant
            i <= p.len() <= v.len(),
            off == v.len() - p.len(),
            forall|k: int| 0 <= k < i ==> v@[off + k] == p@[k],
        decreases p.len() - i,
    {
        if v[off + i] != p[i] {
            assert(!p@.is_suffix_of(v@)) by {
                if p@.is_suffix_of(v@) {
                    assert(p@[i as int] == v@.subrange(
                        v@.len() - p@.len(),
                        v@.len() as int,
                    )[i as int]);
                }
            }
            return false;
        }
        i = i + 1;
    }
    assert(p@ =~= v@.subrange(v@.len() - p@.len(), v@.len() as int));
    true
}

/// Whether two character vectors hold the same characters.
pub fn chars_eq(a: &Vec<char>, b: &Vec<char>) -> (r: bool)
    ensures
        r == (a@ == b@),
{
    if a.len() != b.len() {
        return false;
    }
    let r = has_prefix(a, b);
    proof {
        if r {
            assert(a@ =~= b@);
        } else {
            if a@ == b@ {
                assert(b@.is_prefix_of(a@));
            }
        }
    }
    r
}

/// The first position at or after `i` holding `c`, if any.
pub open spec fn sfind(s: Seq<char>, i: int, c: char) -> Option<int>
    decreases s.len() - i,
    when 0 <= i <= s.len()
{
    if i >= s.len() {
        None
    } else if s[i] == c {
        Some(i)
    } else {
        sfind(s, i + 1, c)
    }
}

pub fn find_from(v: &Vec<char>, from: usize, c: char) -> (r: Option<usize>)
    requires
        from <= v.len(),
    ensures
        match r {
            Some(j) => from <= j < v.len() && sfind(v@, from as int, c) == Some(j as int),
            None => sfind(v@, from as int, c) is None,
        },
{
    let mut i: usize = from;
    while i < v.len()
        invariant
            from <= i <= v.len(),
            sfind(v@, from as int, c) == sfind(v@, i as int, c),
        decreases v.len() - i,
    {
        if v[i] == c {
            return Some(i);
        }
        i = i + 1;
    }
    None
}

/// The last position strictly before `i` holding `c`, if any.
pub open spec fn srfind(s: Seq<char>, i: int, c: char) -> Option<int>
    decreases i,
    when 0 <= i <= s.len()
{
    if i <= 0 {
        None
    } else if s[i - 1] == c {
        Some(i - 1)
    } else {
        srfind(s, i - 1, c)
    }
}

pub proof fn lemma_srfind(s: Seq<char>, i: int, c: char)
    requires
        0 <= i <= s.len(),
    ensures
        match srfind(s, i, c) {
            Some(j) => 0 <= j < i && s[j] == c && forall|k: int| j < k < i ==> s[k] != c,
            None => forall|k: int| 0 <= k < i ==> s[k] != c,
        },
    decreases i,
{
    if i > 0 && s[i - 1] != c {
        lemma_srfind(s, i - 1, c);
    }
}

pub fn rfind_before(v: &Vec<char>, before: usize, c: char) -> (r: Option<usize>)
    requires
        before <= v.len(),
    ensures
        match r {
            Some(j) => j < before && srfind(v@, before as int, c) == Some(j as int),
            None => srfind(v@, before as int, c) is None,
        },
{
    let mut i: usize = before;
    while i > 0
        invariant
            i <= before <= v.len(),
            srfind(v@, before as int, c) == srfind(v@, i as int, c),
        decreases i,
    {
        if v[i - 1] == c {
            return Some(i - 1);
        }
        i = i - 1;
    }
    None
}

/// Split `s[i..]` on `sep`; `cur` is the piece gathered so far.
pub open spec fn ssplit_from(s: Seq<char>, i: int, sep: char, cur: Seq<char>) -> Seq<Seq<char>>
    decreases s.len() - i,
    when 0 <= i <= s.len()
{
    if i >= s.len() {
        seq![cur]
    } else if s[i] == sep {
        seq![cur] + ssplit_from(s, i + 1, sep, Seq::empty())
    } else {
        ssplit_from(s, i + 1, sep, cur.push(s[i]))
    }
}

/// The pieces of `s` between occurrences of `sep`.
pub open spec fn ssplit(s: Seq<char>, sep: char) -> Seq<Seq<char>> {
    ssplit_from(s, 0, sep, Seq::empty())
}

pub proof fn lemma_ssplit_from_len(s: Seq<char>, i: int, sep: char, cur: Seq<char>)
    requires
        0 <= i <= s.len(),
    ensures
        ssplit_from(s, i, sep, cur).len() >= 1,
    decreases s.len() - i,
{
    if i < s.len() {
        if s[i] == sep {
            lemma_ssplit_from_len(s, i + 1, sep, Seq::empty());
        } else {
            lemma_ssplit_from_len(s, i + 1, sep, cur.push(s[i]));
        }
    }
}

pub fn split_on(v: &Vec<char>, sep: char) -> (r: Vec<Vec<char>>)
    ensures
        views(r@) == ssplit(v@, sep),
{
    let mut parts: Vec<Vec<char>> = Vec::new();
    let mut cur: Vec<char> = Vec::new();
    let mut i: usize = 0;
    while i < v.len()
        invariant
            i <= v.len(),
            ssplit(v@, sep) == views(parts@) + ssplit_from(v@, i as int, sep, cur@),
        decreases v.len() - i,
    {
        if v[i] == sep {
            proof {
                views_push(parts@, cur);
                assert(views(parts@) + (seq![cur@] + ssplit_from(v@, i + 1, sep, Seq::empty()))
                    =~= views(parts@.push(cur)) + ssplit_from(v@, i + 1, sep, Seq::empty()));
            }
            parts.push(cur);
            cur = Vec::new();
        } else {
            cur.push(v[i]);
        }
        i = i + 1;
    }
    proof {
        views_push(parts@, cur);
        assert(views(parts@) + seq![cur@] =~= views(parts@.push(cur)));
    }
    parts.push(cur);
    parts
}

/// Equal concatenations with the same left part have equal right parts.
pub proof fn lemma_cancel_left(a: Seq<char>, x: Seq<char>, y: Seq<char>)
    requires
        a + x == a + y,
    ensures
        x == y,
{
    assert(x =~= (a + x).skip(a.len() as int));
    assert(y =~= (a + y).skip(a.len() as int));
}

/// Equal concatenations with the same left and right parts have equal
/// middles.
pub proof fn lemma_cancel_middle(a: Seq<char>, x: Seq<char>, y: Seq<char>, b: Seq<char>)
    requires
        a + x + b == a + y + b,
    ensures
        x == y,
{
    assert((a + x + b).len() == a.len() + x.len() + b.len());
    assert((a + y + b).len() == a.len() + y.len() + b.len());
    assert(x.len() == y.len());
    assert(x =~= (a + x + b).subrange(a.len() as int, a.len() + x.len() as int));
    assert(y =~= (a + y + b).subrange(a.len() as int, a.len() + y.len() as int));
    assert((a + x + b).subrange(a.len() as int, a.len() + x.len() as int) == (a + y
        + b).subrange(a.len() as int, a.len() + y.len() as int));
}

/// `s` with every leading repetition of `p` removed.
pub open spec fn strip_rep_prefix(s: Seq<char>, p: Seq<char>) -> Seq<char>
    decreases s.len(),
{
    if p.len() > 0 && p.is_prefix_of(s) {
        strip_rep_prefix(s.skip(p.len() as int), p)
    } else {
        s
    }
}

pub fn strip_rep_prefix_exec(v: &Vec<char>, p: &Vec<char>) -> (r: Vec<char>)
    ensures
        r@ == strip_rep_prefix(v@, p@),
{
    let mut cur = copy_vec(v);
    while p.len() > 0 && has_prefix(&cur, p)
        invariant
            strip_rep_prefix(v@, p@) == strip_rep_prefix(cur@, p@),
        decreases cur@.len(),
    {
        let next = subvec(&cur, p.len(), cur.len());
        assert(next@ =~= cur@.skip(p@.len() as int));
        cur = next;
    }
    cur
}

/// `s` with every trailing repetition of `p` removed.
pub open spec fn strip_rep_suffix(s: Seq<char>, p: Seq<char>) -> Seq<char>
    decreases s.len(),
{
    if p.len() > 0 && p.is_suffix_of(s) && p.len() <= s.len() {
        strip_rep_suffix(s.take(s.len() - p.len()), p)
    } else {
        s
    }
}

pub fn strip_rep_suffix_exec(v: &Vec<char>, p: &Vec<char>) -> (r: Vec<char>)
    ensures
        r@ == strip_rep_suffix(v@, p@),
{
    let mut cur = copy_vec(v);
    while p.len() > 0 && has_suffix(&cur, p)
        invariant
            strip_rep_suffix(v@, p@) == strip_rep_suffix(cur@, p@),
        decreases cur@.len(),
    {
        let next = subvec(&cur, 0, cur.len() - p.len());
        assert(next@ =~= cur@.take(cur@.len() - p@.len()));
        cur = next;
    }
    cur
}

/// The members of `parts`, joined with `sep` between neighbours.
pub open spec fn sjoin(parts: Seq<Seq<char>>, sep: char) -> Seq<char>
    decreases parts.len(),
{
    if parts.len() == 0 {
        Seq::empty()
    } else if parts.len() == 1 {
        parts[0]
    } else {
        parts[0] + seq![sep] + sjoin(parts.drop_first(), sep)
    }
}

/// Joining what splitting produced restores the original text.
pub proof fn lemma_join_split_from(s: Seq<char>, i: int, sep: char, cur: Seq<char>)
    requires
        0 <= i <= s.len(),
    ensures
        sjoin(ssplit_from(s, i, sep, cur), sep) == cur + s.skip(i),
    decreases s.len() - i,
{
    if i >= s.len() {
        assert(cur + s.skip(i) =~= cur);
    } else if s[i] == sep {
        lemma_join_split_from(s, i + 1, sep, Seq::empty());
        lemma_ssplit_from_len(s, i + 1, sep, Seq::empty());
        let rest = ssplit_from(s, i + 1, sep, Seq::empty());
        assert((seq![cur] + rest).drop_first() =~= rest);
        assert((seq![cur] + rest)[0] == cur);
        assert(Seq::<char>::empty() + s.skip(i + 1) =~= s.skip(i + 1));
        assert(cur + seq![sep] + s.skip(i + 1) =~= cur + s.skip(i));
    } else {
        lemma_join_split_from(s, i + 1, sep, cur.push(s[i]));
        assert(cur.push(s[i]) + s.skip(i + 1) =~= cur + s.skip(i));
    }
}

/// Splitting from position `i` is splitting the suffix from its start.
pub proof fn lemma_ssplit_shift(s: Seq<char>, i: int, sep: char, cur: Seq<char>)
    requires
        0 <= i <= s.len(),
    ensures
        ssplit_from(s, i, sep, cur) == ssplit_from(s.skip(i), 0, sep, cur),
    decreases s.len() - i,
{
    let t = s.skip(i);
    if i >= s.len() {
        assert(t.len() == 0);
    } else if s[i] == sep {
        assert(t[0] == sep);
        lemma_ssplit_shift(s, i + 1, sep, Seq::empty());
        lemma_ssplit_shift(t, 1, sep, Seq::empty());
        assert(t.skip(1) =~= s.skip(i + 1));
    } else {
        assert(t[0] == s[i]);
        lemma_ssplit_shift(s, i + 1, sep, cur.push(s[i]));
        lemma_ssplit_shift(t, 1, sep, cur.push(t[0]));
        assert(t.skip(1) =~= s.skip(i + 1));
    }
}

pub proof fn lemma_join_split(s: Seq<char>, sep: char)
    ensures
        sjoin(ssplit(s, sep), sep) == s,
{
    lemma_join_split_from(s, 0, sep, Seq::empty());
    assert(Seq::<char>::empty() + s.skip(0) =~= s);
}

pub fn join_with(parts: &Vec<Vec<char>>, from: usize, sep: char) -> (r: Vec<char>)
    requires
        from <= parts.len(),
    ensures
        r@ == sjoin(views(parts@).skip(from as int), sep),
    decreases parts.len() - from,
{
    let dvg: Ghost<Seq<Seq<char>>> = Ghost(views(parts@));
    if from >= parts.len() {
        assert(dvg@.skip(from as int) =~= Seq::<Seq<char>>::empty());
        Vec::new()
    } else if from == parts.len() - 1 {
        assert(dvg@.skip(from as int) =~= seq![dvg@[from as int]]);
        copy_vec(&parts[from])
    } else {
        let rest = join_with(parts, from + 1, sep);
        let mut r = copy_vec(&parts[from]);
        r.push(sep);
        extend_vec(&mut r, &rest);
        proof {
            let tail = dvg@.skip(from as int);
            assert(tail.drop_first() =~= dvg@.skip(from as int + 1));
            assert(tail[0] == dvg@[from as int]);
            assert(dvg@[from as int].push(sep) =~= dvg@[from as int] + seq![sep]);
        }
        r
    }
}

} // verus!
