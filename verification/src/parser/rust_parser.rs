//! The import scanner for source written in the language this tool
//! itself is written in: `use` declarations, brace groups, rename
//! clauses, and a test-section cutoff.

use super::{paths_view, Parser};
use crate::dependencies::DependencyPath;
use crate::dependencies_parser::{components_of, cutoff, develop_full, parse_use_spec};
use crate::text::seq_views;
use vstd::prelude::*;

pub use crate::dependencies_parser::develop_all_dependencies;
pub use crate::dependencies_parser::develop_innermost_dependencies;
pub use crate::dependencies_parser::keep_before_cfg_test;
pub use crate::dependencies_parser::parse_use;
pub use crate::dependencies_parser::trim_spaces_and_as;

verus! {

/// Each expanded dependency string split into trimmed components.
pub open spec fn components_all(ds: Seq<Seq<char>>) -> Seq<Seq<Seq<char>>> {
    ds.map_values(|d: Seq<char>| components_of(d))
}

proof fn lemma_components_all_push(ds: Seq<Seq<char>>, k: int)
    requires
        0 <= k < ds.len(),
    ensures
        components_all(ds.subrange(0, k + 1)) == components_all(ds.subrange(0, k)).push(
            components_of(ds[k]),
        ),
{
    let lhs = components_all(ds.subrange(0, k + 1));
    let rhs = components_all(ds.subrange(0, k)).push(components_of(ds[k]));
    assert forall|i: int| 0 <= i < lhs.len() implies lhs[i] == rhs[i] by {
        assert(lhs[i] == components_of(ds.subrange(0, k + 1)[i]));
        if i < k {
            assert(rhs[i] == components_of(ds.subrange(0, k)[i]));
            assert(ds.subrange(0, k)[i] == ds[i]);
        }
        assert(ds.subrange(0, k + 1)[i] == ds[i]);
    }
    assert(lhs =~= rhs);
}

/// The raw dependency paths of one import statement's text: its
/// brace expansions in their sorted set order, each split into
/// trimmed components.
pub open spec fn paths_of_use(u: Seq<char>) -> Seq<Seq<Seq<char>>> {
    components_all(crate::text::sorted_of(develop_full(u)))
}

/// The raw dependency paths of a list of import statements.
pub open spec fn paths_of_uses(uses: Seq<Seq<char>>) -> Seq<Seq<Seq<char>>>
    decreases uses.len(),
{
    if uses.len() == 0 {
        Seq::empty()
    } else {
        paths_of_use(uses[0]) + paths_of_uses(uses.drop_first())
    }
}

proof fn lemma_paths_of_uses_push(uses: Seq<Seq<char>>)
    requires
        uses.len() > 0,
    ensures
        paths_of_uses(uses) == paths_of_uses(uses.drop_last()) + paths_of_use(uses.last()),
    decreases uses.len(),
{
    if uses.len() == 1 {
        assert(uses.drop_last() =~= Seq::<Seq<char>>::empty());
        assert(uses.drop_first() =~= Seq::<Seq<char>>::empty());
        assert(paths_of_uses(uses.drop_first()) =~= Seq::<Seq<Seq<char>>>::empty());
        assert(paths_of_uses(uses.drop_last()) =~= Seq::<Seq<Seq<char>>>::empty());
        assert(paths_of_uses(uses) =~= paths_of_uses(uses.drop_last()) + paths_of_use(
            uses.last(),
        ));
    } else {
        lemma_paths_of_uses_push(uses.drop_first());
        assert(uses.drop_first().drop_last() =~= uses.drop_last().drop_first());
        assert(uses.drop_first().last() == uses.last());
        assert(uses.drop_last()[0] == uses[0]);
        assert(uses.drop_last().len() > 0);
        assert((paths_of_use(uses[0]) + (paths_of_uses(uses.drop_first().drop_last())
            + paths_of_use(uses.last()))) =~= ((paths_of_use(uses[0]) + paths_of_uses(
            uses.drop_first().drop_last(),
        )) + paths_of_use(uses.last())));
    }
}

proof fn lemma_paths_view_push(v: Seq<DependencyPath>, d: DependencyPath)
    ensures
        paths_view(v.push(d)) == paths_view(v).push(seq_views(d.0@)),
{
    let lhs = paths_view(v.push(d));
    let rhs = paths_view(v).push(seq_views(d.0@));
    assert forall|i: int| 0 <= i < lhs.len() implies lhs[i] == rhs[i] by {
        assert(lhs[i] == seq_views(v.push(d)[i].0@));
        if i < v.len() {
            assert(v.push(d)[i] == v[i]);
            assert(rhs[i] == paths_view(v)[i]);
        } else {
            assert(v.push(d)[i] == d);
        }
    }
    assert(lhs =~= rhs);
}

/// The import scanner for this language.
pub struct RustParser {}

impl Parser for RustParser {
    open spec fn deps_spec(file_contents: Seq<char>) -> Seq<Seq<Seq<char>>> {
        paths_of_uses(parse_use_spec(cutoff(file_contents), 0))
    }

    fn parse_dependencies(file_contents: &str) -> (r: Vec<DependencyPath>) {
        let before_tests = match keep_before_cfg_test(file_contents) {
            None => file_contents.to_owned(),
            Some(found) => found,
        };
        proof {
            assert(before_tests@ == cutoff(file_contents@));
        }
        let uses = parse_use(before_tests.as_str());
        let ghost uv = seq_views(uses@);
        let nu = uses.len();
        let mut out: Vec<DependencyPath> = Vec::new();
        let mut i: usize = 0;
        while i < nu
            invariant
                nu == uses@.len(),
                uv == seq_views(uses@),
                i <= nu,
                paths_view(out@) == paths_of_uses(uv.subrange(0, i as int)),
            decreases nu - i,
        {
            let devs = develop_all_dependencies(uses[i].as_str());
            let ghost dview = crate::text::sorted_of(develop_full(uv[i as int]));
            proof {
                crate::text::lemma_sorted_of_eq(seq_views(devs@));
                assert(seq_views(devs@) == dview);
            }
            let nd = devs.len();
            let mut j: usize = 0;
            while j < nd
                invariant
                    nd == devs@.len(),
                    dview == seq_views(devs@),
                    uv == seq_views(uses@),
                    i < nu,
                    nu == uses@.len(),
                    j <= nd,
                    paths_view(out@) == paths_of_uses(uv.subrange(0, i as int)) + components_all(
                        dview.subrange(0, j as int),
                    ),
                decreases nd - j,
            {
                proof {
                    reveal_strlit("::");
                }
                let pieces = crate::text::split_str(devs[j].as_str(), "::");
                let ghost pv = seq_views(pieces@);
                let np = pieces.len();
                let mut comps: Vec<String> = Vec::new();
                let mut k: usize = 0;
                while k < np
                    invariant
                        np == pieces@.len(),
                        k <= np,
                        pv == seq_views(pieces@),
                        j < devs@.len(),
                        seq_views(comps@) == crate::dependencies_parser::trimmed_all(
                            pv.subrange(0, k as int),
                        ),
                    decreases np - k,
                {
                    let t = trim_spaces_and_as(pieces[k].as_str());
                    let ghost c0 = comps@;
                    comps.push(t);
                    proof {
                        crate::text::lemma_seq_views_push(c0, t@);
                        crate::dependencies_parser::lemma_trimmed_all_push(pv, k as int);
                        assert(pv[k as int] == pieces@[k as int]@);
                        assert(seq_views(comps@) == crate::dependencies_parser::trimmed_all(
                            pv.subrange(0, k + 1),
                        ));
                    }
                    k += 1;
                }
                proof {
                    assert(pv.subrange(0, np as int) =~= pv);
                    assert(pv == crate::text::split_sub(devs@[j as int]@, "::"@));
                    assert(seq_views(comps@) == components_of(devs@[j as int]@));
                }
                let dp = DependencyPath(comps);
                let ghost out0 = out@;
                out.push(dp);
                proof {
                    lemma_paths_view_push(out0, dp);
                    lemma_components_all_push(dview, j as int);
                    assert(paths_view(out@) =~= paths_of_uses(uv.subrange(0, i as int))
                        + components_all(dview.subrange(0, j + 1)));
                }
                j += 1;
            }
            proof {
                assert(dview.subrange(0, nd as int) =~= dview);
                assert(uv.subrange(0, i + 1).drop_last() =~= uv.subrange(0, i as int));
                lemma_paths_of_uses_push(uv.subrange(0, i + 1));
                assert(uv.subrange(0, i + 1).last() == uv[i as int]);
                assert(paths_view(out@) =~= paths_of_uses(uv.subrange(0, i + 1)));
            }
            i += 1;
        }
        proof {
            assert(uv.subrange(0, nu as int) =~= uv);
        }
        out
    }
}

} // verus!
