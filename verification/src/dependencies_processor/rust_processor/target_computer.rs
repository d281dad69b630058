//! Resolution of a classified dependency against the registry: the
//! longest known prefix decides the edge's target vertex.

use super::dependency_expander::{expand_dependency, expanded_kind, expanded_path};
use super::DependencyKind;
use crate::dependencies::{DependencyPath, FilePath};
use crate::dependencies_graph::DependenciesGraph;
use crate::dependencies_processor::DependencyProcessor;
use crate::text::seq_views;
use vstd::prelude::*;

verus! {

/// Whether the node at a matched prefix is a pure namespace: it has
/// children but no unit of its own, so edges to it are redirected to
/// its defining unit by a namespace-marker suffix.
pub open spec fn is_pure_namespace(node: DependenciesGraph) -> bool {
    node.children@.len() > 0 && node.value is None
}

/// The vertex path an edge points at: the matched prefix, with the
/// namespace marker appended when the match ends on a pure
/// namespace.
pub open spec fn matched_target(trie: DependenciesGraph, cand: Seq<Seq<char>>) -> Seq<Seq<char>> {
    let plen = trie.prefix_len(cand) as int;
    let node = trie.node_at(cand);
    cand.subrange(0, plen) + if is_pure_namespace(node) {
        seq!["mod"@]
    } else {
        Seq::empty()
    }
}

/// The resolution rule over the whole registry.  A definite internal
/// path that matches nothing points at the library root sentinel; an
/// ambiguous path whose match does not pass the boundary its own
/// unit contributed is external, and its first component past the
/// boundary names the target; every other case follows the matched
/// prefix, with the namespace-marker rule.
pub open spec fn rust_target_spec(
    trie: DependenciesGraph,
    fp: Seq<Seq<char>>,
    dep: Seq<Seq<char>>,
    pkg: Seq<char>,
) -> Seq<Seq<char>> {
    let cand = expanded_path(dep, pkg, fp);
    let plen = trie.prefix_len(cand) as int;
    match expanded_kind(dep, pkg, fp) {
        DependencyKind::Relative => {
            if plen == 0 {
                seq!["lib"@]
            } else {
                matched_target(trie, cand)
            }
        },
        DependencyKind::Ambiguous(b) => {
            if plen <= b {
                seq![cand[b as int]]
            } else {
                matched_target(trie, cand)
            }
        },
    }
}

/// The processor for source trees resolved by package root, crate
/// root, parent-module and current-module tokens.
pub struct RustDependencyProcessor {}

impl DependencyProcessor for RustDependencyProcessor {
    open spec fn target_spec(
        trie: DependenciesGraph,
        file_path: Seq<Seq<char>>,
        dependency: Seq<Seq<char>>,
        pkg_name: Seq<char>,
    ) -> Seq<Seq<char>> {
        rust_target_spec(trie, file_path, dependency, pkg_name)
    }

    fn compute_target(
        trie: &DependenciesGraph,
        file_path: &FilePath,
        dependency: &DependencyPath,
        pkg_name: &str,
    ) -> (r: FilePath) {
        let ghost fp = seq_views(file_path.0@);
        let ghost dv = seq_views(dependency.0@);
        let fp_vec = file_path.0.clone();
        proof {
            assert(seq_views(fp_vec@) =~= fp);
        }
        let dep = expand_dependency(dependency.0.as_slice(), pkg_name, fp_vec);
        let ghost cand = expanded_path(dv, pkg_name@, fp);
        proof {
            assert(seq_views(dep.path.0@) == cand);
        }
        let (longest_prefix, _value) = trie.get_longest_prefix(dep.path.0.as_slice());
        let plen = longest_prefix.len();
        let node = trie.descend(longest_prefix);
        proof {
            let pv = dep.path.0@;
            trie.lemma_prefix_len_le(cand);
            assert(crate::trie::key_views(pv) =~= seq_views(pv));
            assert(seq_views(pv).len() == pv.len());
            assert(longest_prefix@ == pv.subrange(0, trie.prefix_len(cand) as int));
            assert(seq_views(longest_prefix@) =~= cand.subrange(0, trie.prefix_len(cand) as int));
            assert(crate::trie::key_views(longest_prefix@) =~= seq_views(longest_prefix@));
            trie.lemma_node_at_prefix(cand);
            assert(*node == trie.node_at(cand));
            assert(plen == trie.prefix_len(cand));
        }
        let namespace = !node.children.is_empty() && node.value.is_none();
        let target: Vec<String> = match dep.kind {
            DependencyKind::Relative => {
                if plen == 0 {
                    let mut t: Vec<String> = Vec::new();
                    t.push("lib".to_owned());
                    proof {
                        assert(seq_views(t@) =~= seq!["lib"@]);
                    }
                    t
                } else {
                    let mut t = crate::text::clone_strs_from(longest_prefix, 0);
                    proof {
                        assert(seq_views(t@) =~= seq_views(longest_prefix@));
                    }
                    if namespace {
                        crate::text::push_str_owned(&mut t, "mod");
                        proof {
                            assert(seq_views(t@) =~= matched_target(*trie, cand));
                        }
                    } else {
                        proof {
                            assert(seq_views(t@) =~= matched_target(*trie, cand));
                        }
                    }
                    t
                }
            },
            DependencyKind::Ambiguous(b) => {
                if plen <= b {
                    proof {
                        assert(cand == super::dependency_expander::reduced_path(fp) + dv);
                        assert(b < dep.path.0@.len());
                    }
                    let mut t: Vec<String> = Vec::new();
                    t.push(dep.path.0[b].clone());
                    proof {
                        assert(seq_views(t@) =~= seq![cand[b as int]]);
                    }
                    t
                } else {
                    let mut t = crate::text::clone_strs_from(longest_prefix, 0);
                    proof {
                        assert(seq_views(t@) =~= seq_views(longest_prefix@));
                    }
                    if namespace {
                        crate::text::push_str_owned(&mut t, "mod");
                        proof {
                            assert(seq_views(t@) =~= matched_target(*trie, cand));
                        }
                    } else {
                        proof {
                            assert(seq_views(t@) =~= matched_target(*trie, cand));
                        }
                    }
                    t
                }
            },
        };
        FilePath(target)
    }
}

} // verus!
