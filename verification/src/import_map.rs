//! The import map: an ordered list of specifier mappings, optionally scoped
//! by a prefix of the importing file's specifier.  A key matches exactly, or,
//! when it ends in `/`, as a prefix with the remainder carried over; among
//! prefix keys the longest match wins.  A mapped value starting with `./` is
//! taken relative to the project root, so its leading `.` is dropped.
use vstd::prelude::*;
use crate::convert::chars_of;
use crate::paths::starts_dot_slash;
use crate::text::{cat, chars_eq, copy_vec, has_prefix, subvec};

verus! {

/// The plain configuration form of an import map.
pub struct ImportHashMap {
    pub imports: Vec<(String, String)>,
    pub scopes: Vec<(String, Vec<(String, String)>)>,
}

impl Default for ImportHashMap {
    fn default() -> (r: Self)
        ensures
            r.imports@.len() == 0,
            r.scopes@.len() == 0,
    {
        ImportHashMap { imports: Vec::new(), scopes: Vec::new() }
    }
}

pub open spec fn pair_views(ps: Seq<(String, String)>) -> Seq<(Seq<char>, Seq<char>)> {
    ps.map_values(|p: (String, String)| (p.0@, p.1@))
}

pub open spec fn scope_views(ss: Seq<(String, Vec<(String, String)>)>) -> Seq<
    (Seq<char>, Seq<(Seq<char>, Seq<char>)>),
> {
    ss.map_values(|p: (String, Vec<(String, String)>)| (p.0@, pair_views(p.1@)))
}

/// The first exact key match at or after `i`.
pub open spec fn exact_at(
    ps: Seq<(Seq<char>, Seq<char>)>,
    u: Seq<char>,
    i: int,
) -> Option<Seq<char>>
    decreases ps.len() - i,
    when 0 <= i <= ps.len()
{
    if i >= ps.len() {
        Option::None
    } else if ps[i].0 == u {
        Option::Some(ps[i].1)
    } else {
        exact_at(ps, u, i + 1)
    }
}

pub open spec fn prefix_key_matches(k: Seq<char>, u: Seq<char>) -> bool {
    k.len() > 0 && k.last() == '/' && k.is_prefix_of(u)
}

/// The longest prefix key match from `i` on, given the best found so far.
pub open spec fn best_prefix_at(
    ps: Seq<(Seq<char>, Seq<char>)>,
    u: Seq<char>,
    i: int,
    best: Option<(Seq<char>, Seq<char>)>,
) -> Option<(Seq<char>, Seq<char>)>
    decreases ps.len() - i,
    when 0 <= i <= ps.len()
{
    if i >= ps.len() {
        best
    } else {
        let better = prefix_key_matches(ps[i].0, u) && (match best {
            Option::None => true,
            Option::Some(b) => ps[i].0.len() > b.0.len(),
        });
        best_prefix_at(
            ps,
            u,
            i + 1,
            if better {
                Option::Some(ps[i])
            } else {
                best
            },
        )
    }
}

/// The result of one mapping list on a specifier, before root fixup.
pub open spec fn map_with(ps: Seq<(Seq<char>, Seq<char>)>, u: Seq<char>) -> Option<Seq<char>> {
    match exact_at(ps, u, 0) {
        Option::Some(v) => Option::Some(v),
        Option::None => match best_prefix_at(ps, u, 0, Option::None) {
            Option::Some(kv) => Option::Some(kv.1 + u.skip(kv.0.len() as int)),
            Option::None => Option::None,
        },
    }
}

/// A mapped value starting with `./` is taken from the project root.
pub open spec fn root_fixup(v: Seq<char>) -> Seq<char> {
    if starts_dot_slash(v) {
        v.skip(1)
    } else {
        v
    }
}

/// The longest scope key that is a prefix of the importer, from `i` on.
pub open spec fn best_scope_at(
    ss: Seq<(Seq<char>, Seq<(Seq<char>, Seq<char>)>)>,
    importer: Seq<char>,
    i: int,
    best: Option<(Seq<char>, Seq<(Seq<char>, Seq<char>)>)>,
) -> Option<(Seq<char>, Seq<(Seq<char>, Seq<char>)>)>
    decreases ss.len() - i,
    when 0 <= i <= ss.len()
{
    if i >= ss.len() {
        best
    } else {
        let better = ss[i].0.is_prefix_of(importer) && (match best {
            Option::None => true,
            Option::Some(b) => ss[i].0.len() > b.0.len(),
        });
        best_scope_at(
            ss,
            importer,
            i + 1,
            if better {
                Option::Some(ss[i])
            } else {
                best
            },
        )
    }
}

/// What the import map rewrites a specifier to: the matching scope's
/// mappings are consulted first, then the top-level mappings; an unmatched
/// specifier passes through unchanged.
pub open spec fn im_resolve(
    imports: Seq<(Seq<char>, Seq<char>)>,
    scopes: Seq<(Seq<char>, Seq<(Seq<char>, Seq<char>)>)>,
    importer: Seq<char>,
    u: Seq<char>,
) -> Seq<char> {
    let scoped = match best_scope_at(scopes, importer, 0, Option::None) {
        Option::Some(s) => map_with(s.1, u),
        Option::None => Option::None,
    };
    match scoped {
        Option::Some(v) => root_fixup(v),
        Option::None => match map_with(imports, u) {
            Option::Some(v) => root_fixup(v),
            Option::None => u,
        },
    }
}

/// The import map in the character form the engine works on.
pub struct ImportMap {
    pub imports: Vec<(Vec<char>, Vec<char>)>,
    pub scopes: Vec<(Vec<char>, Vec<(Vec<char>, Vec<char>)>)>,
}

pub open spec fn cpair_views(ps: Seq<(Vec<char>, Vec<char>)>) -> Seq<(Seq<char>, Seq<char>)> {
    ps.map_values(|p: (Vec<char>, Vec<char>)| (p.0@, p.1@))
}

pub open spec fn cscope_views(ss: Seq<(Vec<char>, Vec<(Vec<char>, Vec<char>)>)>) -> Seq<
    (Seq<char>, Seq<(Seq<char>, Seq<char>)>),
> {
    ss.map_values(|p: (Vec<char>, Vec<(Vec<char>, Vec<char>)>)| (p.0@, cpair_views(p.1@)))
}

proof fn cpair_views_push(ps: Seq<(Vec<char>, Vec<char>)>, x: (Vec<char>, Vec<char>))
    ensures
        cpair_views(ps.push(x)) == cpair_views(ps).push((x.0@, x.1@)),
{
    assert(cpair_views(ps.push(x)) =~= cpair_views(ps).push((x.0@, x.1@)));
}

proof fn pair_views_take_step(ps: Seq<(String, String)>, i: int)
    requires
        0 <= i < ps.len(),
    ensures
        pair_views(ps).take(i + 1) == pair_views(ps).take(i).push((ps[i].0@, ps[i].1@)),
{
    assert(pair_views(ps).take(i + 1) =~= pair_views(ps).take(i).push((ps[i].0@, ps[i].1@)));
}

fn convert_pairs(ps: &Vec<(String, String)>) -> (r: Vec<(Vec<char>, Vec<char>)>)
    ensures
        cpair_views(r@) == pair_views(ps@),
{
    let mut r: Vec<(Vec<char>, Vec<char>)> = Vec::new();
    let mut i: usize = 0;
    while i < ps.len()
        invariant
            i <= ps.len(),
            cpair_views(r@) =~= pair_views(ps@).take(i as int),
        decreases ps.len() - i,
    {
        let k = chars_of(ps[i].0.as_str());
        let v = chars_of(ps[i].1.as_str());
        proof {
            cpair_views_push(r@, (k, v));
            pair_views_take_step(ps@, i as int);
        }
        r.push((k, v));
        i = i + 1;
    }
    proof {
        assert(pair_views(ps@).take(ps@.len() as int) =~= pair_views(ps@));
    }
    r
}

impl ImportMap {
    /// Build the engine's import map from its plain configuration.
    pub fn from_hashmap(map: ImportHashMap) -> (r: ImportMap)
        ensures
            cpair_views(r.imports@) == pair_views(map.imports@),
            cscope_views(r.scopes@) == scope_views(map.scopes@),
    {
        let imports = convert_pairs(&map.imports);
        let mut scopes: Vec<(Vec<char>, Vec<(Vec<char>, Vec<char>)>)> = Vec::new();
        let mut i: usize = 0;
        while i < map.scopes.len()
            invariant
                i <= map.scopes@.len(),
                cscope_views(scopes@) =~= scope_views(map.scopes@).take(i as int),
            decreases map.scopes.len() - i,
        {
            let k = chars_of(map.scopes[i].0.as_str());
            let v = convert_pairs(&map.scopes[i].1);
            proof {
                assert(cscope_views(scopes@.push((k, v))) =~= cscope_views(scopes@).push(
                    (k@, cpair_views(v@)),
                ));
                assert(scope_views(map.scopes@).take(i + 1) =~= scope_views(map.scopes@).take(
                    i as int,
                ).push((map.scopes@[i as int].0@, pair_views(map.scopes@[i as int].1@))));
            }
            scopes.push((k, v));
            i = i + 1;
        }
        proof {
            assert(scope_views(map.scopes@).take(map.scopes@.len() as int) =~= scope_views(
                map.scopes@,
            ));
        }
        ImportMap { imports, scopes }
    }

    /// Rewrite a specifier according to the map.
    pub fn resolve_chars(&self, importer: &Vec<char>, u: &Vec<char>) -> (r: Vec<char>)
        ensures
            r@ == im_resolve(cpair_views(self.imports@), cscope_views(self.scopes@), importer@, u@),
    {
        let sv: Ghost<Seq<(Seq<char>, Seq<(Seq<char>, Seq<char>)>)>> = Ghost(
            cscope_views(self.scopes@),
        );
        let mut best_scope: Option<&Vec<(Vec<char>, Vec<char>)>> = None;
        let mut best_len: usize = 0;
        let best_g: Ghost<Option<(Seq<char>, Seq<(Seq<char>, Seq<char>)>)>> = Ghost(Option::None);
        let mut bg = best_g;
        let mut i: usize = 0;
        while i < self.scopes.len()
            invariant
                i <= self.scopes@.len(),
                sv@ == cscope_views(self.scopes@),
                sv@.len() == self.scopes@.len(),
                best_scope_at(sv@, importer@, 0, Option::None) == best_scope_at(
                    sv@,
                    importer@,
                    i as int,
                    bg@,
                ),
                match bg@ {
                    Option::None => best_scope is None,
                    Option::Some(b) => match best_scope {
                        Option::Some(m) => cpair_views(m@) == b.1 && best_len == b.0.len(),
                        Option::None => false,
                    },
                },
            decreases self.scopes@.len() - i,
        {
            proof {
                assert(sv@[i as int] == (self.scopes@[i as int].0@, cpair_views(
                    self.scopes@[i as int].1@,
                )));
            }
            let key = &self.scopes[i].0;
            let pref = has_prefix(importer, key);
            let better = pref && (match best_scope {
                Option::None => true,
                Option::Some(_) => key.len() > best_len,
            });
            if better {
                best_scope = Some(&self.scopes[i].1);
                best_len = key.len();
                proof {
                    bg@ = Option::Some(sv@[i as int]);
                }
            }
            i = i + 1;
        }
        let scoped: Option<Vec<char>> = match best_scope {
            Option::Some(sps) => Self::map_with_exec(sps, u),
            Option::None => None,
        };
        proof {
            match bg@ {
                Option::Some(b) => {
                    assert(best_scope_at(sv@, importer@, 0, Option::None) == bg@);
                },
                Option::None => {},
            }
        }
        match scoped {
            Option::Some(v) => Self::root_fixup_exec(v),
            Option::None => {
                match Self::map_with_exec(&self.imports, u) {
                    Option::Some(v) => Self::root_fixup_exec(v),
                    Option::None => copy_vec(u),
                }
            },
        }
    }

    fn root_fixup_exec(v: Vec<char>) -> (r: Vec<char>)
        ensures
            r@ == root_fixup(v@),
    {
        if v.len() >= 2 && v[0] == '.' && v[1] == '/' {
            let r = subvec(&v, 1, v.len());
            assert(r@ =~= v@.skip(1));
            r
        } else {
            v
        }
    }

    fn map_with_exec(ps: &Vec<(Vec<char>, Vec<char>)>, u: &Vec<char>) -> (r: Option<Vec<char>>)
        ensures
            match r {
                Some(v) => map_with(cpair_views(ps@), u@) == Some(v@),
                None => map_with(cpair_views(ps@), u@) is None,
            },
    {
        let pv: Ghost<Seq<(Seq<char>, Seq<char>)>> = Ghost(cpair_views(ps@));
        let mut i: usize = 0;
        while i < ps.len()
            invariant
                i <= ps@.len(),
                pv@ == cpair_views(ps@),
                pv@.len() == ps@.len(),
                exact_at(pv@, u@, 0) == exact_at(pv@, u@, i as int),
            decreases ps@.len() - i,
        {
            proof {
                assert(pv@[i as int] == (ps@[i as int].0@, ps@[i as int].1@));
            }
            if chars_eq(&ps[i].0, u) {
                return Some(copy_vec(&ps[i].1));
            }
            i = i + 1;
        }
        // no exact match: look for the longest prefix key ending in `/`
        let mut best: Option<usize> = None;
        let bg: Ghost<Option<(Seq<char>, Seq<char>)>> = Ghost(Option::None);
        let mut bgm = bg;
        let mut j: usize = 0;
        while j < ps.len()
            invariant
                j <= ps@.len(),
                pv@ == cpair_views(ps@),
                pv@.len() == ps@.len(),
                best_prefix_at(pv@, u@, 0, Option::None) == best_prefix_at(
                    pv@,
                    u@,
                    j as int,
                    bgm@,
                ),
                match bgm@ {
                    Option::None => best is None,
                    Option::Some(b) => prefix_key_matches(b.0, u@) && match best {
                        Option::Some(bi) => bi < ps@.len() && pv@[bi as int] == b,
                        Option::None => false,
                    },
                },
            decreases ps@.len() - j,
        {
            proof {
                assert(pv@[j as int] == (ps@[j as int].0@, ps@[j as int].1@));
            }
            let key = &ps[j].0;
            let matches = key.len() > 0 && key[key.len() - 1] == '/' && has_prefix(u, key);
            let better = matches && (match best {
                Option::None => true,
                Option::Some(bi) => {
                    proof {
                        assert(pv@[bi as int] == (ps@[bi as int].0@, ps@[bi as int].1@));
                    }
                    key.len() > ps[bi].0.len()
                },
            });
            if better {
                best = Some(j);
                proof {
                    bgm@ = Option::Some(pv@[j as int]);
                }
            }
            j = j + 1;
        }
        match best {
            Option::Some(bi) => {
                proof {
                    assert(pv@[bi as int] == (ps@[bi as int].0@, ps@[bi as int].1@));
                }
                let key = &ps[bi].0;
                let tail = subvec(u, key.len(), u.len());
                proof {
                    assert(tail@ =~= u@.skip(key@.len() as int));
                }
                let r = cat(&ps[bi].1, &tail);
                Some(r)
            },
            Option::None => None,
        }
    }
}

} // verus!
