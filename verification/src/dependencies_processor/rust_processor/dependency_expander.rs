//! The classifier: a raw dependency path plus the declaring unit's
//! own path become a candidate path that is either definitely
//! internal or possibly external.

use super::{Dependency, DependencyKind};
use crate::dependencies::DependencyPath;
use crate::text::seq_views;
use vstd::prelude::*;

verus! {

/// The unit's path with a trailing namespace marker dropped: the
/// marker only says that the unit defines its whole namespace and
/// must not count in relative arithmetic.
pub open spec fn reduced_path(fp: Seq<Seq<char>>) -> Seq<Seq<char>> {
    if fp.len() > 0 && fp.last() == "mod"@ {
        fp.drop_last()
    } else {
        fp
    }
}

/// How many leading components of `comps` are the parent-module
/// keyword.
pub open spec fn leading_supers(comps: Seq<Seq<char>>) -> int
    decreases comps.len(),
{
    if comps.len() > 0 && comps[0] == "super"@ {
        1 + leading_supers(comps.drop_first())
    } else {
        0
    }
}

pub proof fn lemma_leading_supers_eq(comps: Seq<Seq<char>>, i: int)
    requires
        0 <= i <= comps.len(),
        forall|j: int| 0 <= j < i ==> comps[j] == "super"@,
        i < comps.len() ==> comps[i as int] != "super"@,
    ensures
        leading_supers(comps) == i,
    decreases i,
{
    if i == 0 {
    } else {
        let rest = comps.drop_first();
        assert(forall|j: int| 0 <= j < rest.len() ==> rest[j] == comps[j + 1]);
        lemma_leading_supers_eq(rest, i - 1);
    }
}

/// `p` with its last `k` components removed; fewer than `k` leave
/// nothing.
pub open spec fn drop_n_back<T>(p: Seq<T>, k: int) -> Seq<T> {
    if k >= p.len() {
        Seq::empty()
    } else {
        p.subrange(0, p.len() - k)
    }
}

pub proof fn lemma_drop_n_back_step<T>(p: Seq<T>, k: int)
    requires
        k >= 0,
    ensures
        drop_n_back(p, k).len() > 0 ==> drop_n_back(p, k + 1) == drop_n_back(p, k).drop_last(),
        drop_n_back(p, k).len() == 0 ==> drop_n_back(p, k + 1) == drop_n_back(p, k),
{
    if k >= p.len() {
    } else if k + 1 >= p.len() {
        assert(drop_n_back(p, k + 1) =~= drop_n_back(p, k).drop_last());
    } else {
        assert(drop_n_back(p, k + 1) =~= drop_n_back(p, k).drop_last());
    }
}

/// The candidate path the classifier produces (the first matching
/// rule applies): an absolute path loses its root token; leading
/// parent-module tokens pop components off the unit's reduced path;
/// the current-module token keeps it whole; any other root appends
/// the raw tokens to it.
pub open spec fn expanded_path(
    comps: Seq<Seq<char>>,
    pkg: Seq<char>,
    fp: Seq<Seq<char>>,
) -> Seq<Seq<char>> {
    let red = reduced_path(fp);
    if comps[0] == pkg || comps[0] == "crate"@ {
        comps.drop_first()
    } else if comps[0] == "super"@ {
        let k = leading_supers(comps);
        drop_n_back(red, k) + comps.subrange(k, comps.len() as int)
    } else if comps[0] == "self"@ {
        red + comps.drop_first()
    } else {
        red + comps
    }
}

/// The classification that goes with `expanded_path`: a recognized
/// root token makes the path definitely internal; otherwise it is
/// ambiguous, with the reduced unit path's length as the boundary.
pub open spec fn expanded_kind(
    comps: Seq<Seq<char>>,
    pkg: Seq<char>,
    fp: Seq<Seq<char>>,
) -> DependencyKind {
    if comps[0] == pkg || comps[0] == "crate"@ || comps[0] == "super"@ || comps[0] == "self"@ {
        DependencyKind::Relative
    } else {
        DependencyKind::Ambiguous(reduced_path(fp).len() as usize)
    }
}

/// Classifies one raw dependency path against the declaring unit's
/// path and the package's own root name.
pub fn expand_dependency(
    dependency_components: &[String],
    pkg_name: &str,
    source_file_path: Vec<String>,
) -> (r: Dependency)
    requires
        dependency_components@.len() > 0,
    ensures
        seq_views(r.path.0@) == expanded_path(
            seq_views(dependency_components@),
            pkg_name@,
            seq_views(source_file_path@),
        ),
        r.kind == expanded_kind(
            seq_views(dependency_components@),
            pkg_name@,
            seq_views(source_file_path@),
        ),
{
    let ghost comps = seq_views(dependency_components@);
    let ghost fp0 = seq_views(source_file_path@);
    let mut path = source_file_path;
    if path.len() > 0 && crate::text::str_eq(path[path.len() - 1].as_str(), "mod") {
        let _dropped = path.pop();
    }
    proof {
        assert(seq_views(path@) =~= reduced_path(fp0));
    }
    let ghost red = reduced_path(fp0);
    let n = dependency_components.len();
    let first = vstd::slice::slice_index_get(dependency_components, 0);
    if crate::text::str_eq(first.as_str(), pkg_name) || crate::text::str_eq(
        first.as_str(),
        "crate",
    ) {
        let p = crate::text::clone_strs_from(dependency_components, 1);
        proof {
            assert(seq_views(p@) =~= comps.drop_first());
        }
        Dependency { path: DependencyPath(p), kind: DependencyKind::Relative }
    } else if crate::text::str_eq(first.as_str(), "super") {
        let mut i: usize = 0;
        while i < n && crate::text::str_eq(
            vstd::slice::slice_index_get(dependency_components, i).as_str(),
            "super",
        )
            invariant
                n == dependency_components@.len(),
                comps == seq_views(dependency_components@),
                red == reduced_path(fp0),
                i <= n,
                forall|j: int| 0 <= j < i ==> comps[j] == "super"@,
                seq_views(path@) == drop_n_back(red, i as int),
            decreases n - i,
        {
            proof {
                lemma_drop_n_back_step(red, i as int);
            }
            if path.len() > 0 {
                let ghost pv = path@;
                let _dropped = path.pop();
                proof {
                    assert(seq_views(path@) =~= seq_views(pv).drop_last());
                }
            } else {
                proof {
                    assert(seq_views(path@) =~= Seq::<Seq<char>>::empty());
                }
            }
            i += 1;
        }
        proof {
            lemma_leading_supers_eq(comps, i as int);
        }
        crate::text::append_strs_from(&mut path, dependency_components, i);
        proof {
            assert(seq_views(path@) == drop_n_back(red, i as int) + comps.subrange(
                i as int,
                comps.len() as int,
            ));
        }
        Dependency { path: DependencyPath(path), kind: DependencyKind::Relative }
    } else if crate::text::str_eq(first.as_str(), "self") {
        crate::text::append_strs_from(&mut path, dependency_components, 1);
        proof {
            assert(comps.subrange(1, comps.len() as int) =~= comps.drop_first());
        }
        Dependency { path: DependencyPath(path), kind: DependencyKind::Relative }
    } else {
        let boundary = path.len();
        crate::text::append_strs_from(&mut path, dependency_components, 0);
        proof {
            assert(comps.subrange(0, comps.len() as int) =~= comps);
            assert(boundary == red.len());
        }
        Dependency { path: DependencyPath(path), kind: DependencyKind::Ambiguous(boundary) }
    }
}

} // verus!
