//! An earlier shape of the dot renderer, kept alongside the current
//! one: it works on classified dependencies directly, and an edge
//! target whose matched node stores no unit is redirected with the
//! namespace marker.

use crate::dependency_components::DependencyComponents;
use crate::formatter::dot_formatter::{show_vertices, show_vertices_spec};
use crate::text::{join_with, seq_views, sorted_distinct, sorted_of};
use crate::trie::{key_views, Trie};
use vstd::prelude::*;

verus! {

/// The registry this renderer reads: each unit's value holds its
/// classified dependencies.
pub type DependenciesGraph = Trie<String, Vec<DependencyComponents>>;

/// An edge target: the matched prefix, with the namespace marker
/// appended when the matched node stores no unit of its own.
pub open spec fn make_target_spec(lp: Seq<Seq<char>>, has_value: bool) -> Seq<char> {
    "::"@ + join_with(lp, "::"@) + if has_value {
        Seq::<char>::empty()
    } else {
        "::mod"@
    }
}

/// Writes an edge target from a matched prefix and the value found
/// at its node.
pub fn make_target(longest_prefix: &[String], value: Option<&Vec<DependencyComponents>>) -> (r:
    String)
    ensures
        r@ == make_target_spec(seq_views(longest_prefix@), value is Some),
{
    let mut r = "::".to_owned();
    let joined = crate::text::join_strs_slice(longest_prefix, "::");
    r.append(joined.as_str());
    match value {
        Some(_) => {},
        None => {
            r.append("::mod");
        },
    }
    r
}

/// The edge for one classified dependency of the unit at `source`:
/// an internal dependency follows its longest known prefix, an empty
/// match pointing at the library root sentinel; a possibly external
/// one points at its first raw component, and yields nothing if it
/// has none.
pub open spec fn arrow_spec(
    trie: DependenciesGraph,
    source: Seq<char>,
    comps: Seq<Seq<char>>,
    external: bool,
) -> Option<Seq<char>> {
    let target = if !external {
        if trie.prefix_len(comps) == 0 {
            Some("::lib"@)
        } else {
            Some(
                make_target_spec(
                    comps.subrange(0, trie.prefix_len(comps) as int),
                    trie.node_at(comps).value is Some,
                ),
            )
        }
    } else {
        if comps.len() == 0 {
            None
        } else {
            Some(comps[0])
        }
    };
    match target {
        None => None,
        Some(t) => Some("\""@ + source + "\" -> \""@ + t + "\""@),
    }
}

/// Writes the edge for one classified dependency.
pub fn make_arrow(trie: &DependenciesGraph, source: &str, dependency: &DependencyComponents) -> (r:
    Option<String>)
    ensures
        match r {
            Some(s) => arrow_spec(
                *trie,
                source@,
                seq_views(dependency.components@),
                dependency.file_path is Some,
            ) == Some(s@),
            None => arrow_spec(
                *trie,
                source@,
                seq_views(dependency.components@),
                dependency.file_path is Some,
            ) is None,
        },
{
    let ghost comps = seq_views(dependency.components@);
    let target: Option<String> = match &dependency.file_path {
        None => {
            let (longest_prefix, value) = trie.get_longest_prefix(
                dependency.components.as_slice(),
            );
            proof {
                trie.lemma_prefix_len_le(comps);
                assert(key_views(dependency.components@) =~= comps);
                assert(seq_views(longest_prefix@) =~= comps.subrange(
                    0,
                    trie.prefix_len(comps) as int,
                ));
            }
            if longest_prefix.is_empty() {
                proof {
                    assert(comps.subrange(0, trie.prefix_len(comps) as int).len() == 0);
                }
                Some("::lib".to_owned())
            } else {
                Some(make_target(longest_prefix, value))
            }
        },
        Some(_) => {
            if dependency.components.len() == 0 {
                None
            } else {
                Some(dependency.components[0].clone())
            }
        },
    };
    match target {
        None => None,
        Some(t) => {
            let mut s = "\"".to_owned();
            s.append(source);
            s.append("\" -> \"");
            s.append(t.as_str());
            s.append("\"");
            Some(s)
        },
    }
}

/// The deduplicated edges of one unit, sorted, one per line — or
/// nothing for a node that is no unit.
pub open spec fn deps_lines_spec(
    cur: DependenciesGraph,
    whole: DependenciesGraph,
    source: Seq<char>,
) -> Option<Seq<char>> {
    match cur.value {
        None => None,
        Some(ds) => Some(
            join_with(
                sorted_of(
                    Set::new(
                        |t: Seq<char>|
                            exists|i: int|
                                0 <= i < ds@.len() && arrow_spec(
                                    whole,
                                    source,
                                    seq_views((#[trigger] ds@[i]).components@),
                                    ds@[i].file_path is Some,
                                ) == Some(t),
                    ),
                ),
                "\n"@,
            ),
        ),
    }
}

/// Writes the deduplicated, sorted edges of one unit.
pub fn show_dependencies_from_vertex(
    current_trie: &DependenciesGraph,
    whole_trie: &DependenciesGraph,
    path: &str,
) -> (r: Option<String>)
    ensures
        match r {
            Some(s) => deps_lines_spec(*current_trie, *whole_trie, path@) == Some(s@),
            None => deps_lines_spec(*current_trie, *whole_trie, path@) is None,
        },
{
    match &current_trie.value {
        None => None,
        Some(deps) => {
            let ghost ds = *deps;
            let n = deps.len();
            let mut acc: Vec<String> = Vec::new();
            let mut i: usize = 0;
            while i < n
                invariant
                    n == ds@.len(),
                    ds == *deps,
                    i <= n,
                    sorted_distinct(seq_views(acc@)),
                    seq_views(acc@).to_set() == Set::new(
                        |t: Seq<char>|
                            exists|ii: int|
                                0 <= ii < i && arrow_spec(
                                    *whole_trie,
                                    path@,
                                    seq_views((#[trigger] ds@[ii]).components@),
                                    ds@[ii].file_path is Some,
                                ) == Some(t),
                    ),
                decreases n - i,
            {
                let ghost acc0 = seq_views(acc@).to_set();
                match make_arrow(whole_trie, path, &deps[i]) {
                    Some(arrow) => {
                        crate::text::insert_sorted(&mut acc, arrow);
                    },
                    None => {},
                }
                proof {
                    let goal = Set::new(
                        |t: Seq<char>|
                            exists|ii: int|
                                0 <= ii < i + 1 && arrow_spec(
                                    *whole_trie,
                                    path@,
                                    seq_views((#[trigger] ds@[ii]).components@),
                                    ds@[ii].file_path is Some,
                                ) == Some(t),
                    );
                    assert(seq_views(acc@).to_set() =~= goal) by {
                        assert forall|t: Seq<char>|
                            seq_views(acc@).to_set().contains(t) implies goal.contains(t) by {
                            if acc0.contains(t) {
                                let ii = choose|ii: int|
                                    0 <= ii < i && arrow_spec(
                                        *whole_trie,
                                        path@,
                                        seq_views(ds@[ii].components@),
                                        ds@[ii].file_path is Some,
                                    ) == Some(t);
                                assert(0 <= ii < i + 1 && arrow_spec(
                                    *whole_trie,
                                    path@,
                                    seq_views(ds@[ii].components@),
                                    ds@[ii].file_path is Some,
                                ) == Some(t));
                            } else {
                                assert(arrow_spec(
                                    *whole_trie,
                                    path@,
                                    seq_views(ds@[i as int].components@),
                                    ds@[i as int].file_path is Some,
                                ) == Some(t));
                            }
                        }
                        assert forall|t: Seq<char>| goal.contains(t) implies seq_views(
                            acc@,
                        ).to_set().contains(t) by {
                            let ii = choose|ii: int|
                                0 <= ii < i + 1 && arrow_spec(
                                    *whole_trie,
                                    path@,
                                    seq_views(ds@[ii].components@),
                                    ds@[ii].file_path is Some,
                                ) == Some(t);
                            if ii < i {
                                assert(acc0.contains(t));
                            }
                        }
                    }
                }
                i += 1;
            }
            proof {
                crate::text::lemma_sorted_of_eq(seq_views(acc@));
            }
            Some(crate::text::join_strs(&acc, "\n"))
        },
    }
}

/// The edge lines under one node: the node's own edges, then each
/// child's lines, the non-empty parts one group per line.
pub open spec fn arcs_spec(
    cur: DependenciesGraph,
    whole: DependenciesGraph,
    path: Seq<char>,
) -> Seq<char>
    decreases cur, 1int,
{
    let own = match deps_lines_spec(cur, whole, path) {
        None => Seq::<char>::empty(),
        Some(s) => s,
    };
    own + join_with(
        crate::formatter::dot_formatter::nonempty_strs(children_arcs(cur.children@, whole, path)),
        "\n"@,
    )
}

/// The edge lines of each child, in key order.
pub open spec fn children_arcs(
    cs: Seq<(String, DependenciesGraph)>,
    whole: DependenciesGraph,
    path: Seq<char>,
) -> Seq<Seq<char>>
    decreases cs, 0int,
{
    if cs.len() == 0 {
        Seq::empty()
    } else {
        seq![arcs_spec(cs[0].1, whole, path + "::"@ + cs[0].0@)] + children_arcs(
            cs.drop_first(),
            whole,
            path,
        )
    }
}

proof fn lemma_children_arcs_push(
    cs: Seq<(String, DependenciesGraph)>,
    whole: DependenciesGraph,
    path: Seq<char>,
)
    requires
        cs.len() > 0,
    ensures
        children_arcs(cs, whole, path) == children_arcs(cs.drop_last(), whole, path).push(
            arcs_spec(cs.last().1, whole, path + "::"@ + cs.last().0@),
        ),
    decreases cs.len(),
{
    if cs.len() == 1 {
        assert(cs.drop_last() =~= Seq::<(String, DependenciesGraph)>::empty());
        assert(cs.drop_first() =~= Seq::<(String, DependenciesGraph)>::empty());
        assert(children_arcs(cs.drop_first(), whole, path) =~= Seq::<Seq<char>>::empty());
        assert(children_arcs(cs.drop_last(), whole, path) =~= Seq::<Seq<char>>::empty());
        assert(children_arcs(cs, whole, path) =~= children_arcs(cs.drop_last(), whole, path).push(
            arcs_spec(cs.last().1, whole, path + "::"@ + cs.last().0@),
        ));
    } else {
        lemma_children_arcs_push(cs.drop_first(), whole, path);
        assert(cs.drop_first().drop_last() =~= cs.drop_last().drop_first());
        assert(cs.drop_first().last() == cs.last());
        assert(cs.drop_last()[0] == cs[0]);
        assert(cs.drop_last().len() > 0);
        let head = seq![arcs_spec(cs[0].1, whole, path + "::"@ + cs[0].0@)];
        let midl = children_arcs(cs.drop_last().drop_first(), whole, path);
        let tail = arcs_spec(cs.last().1, whole, path + "::"@ + cs.last().0@);
        assert((head + midl.push(tail)) =~= (head + midl).push(tail));
    }
}

/// Writes the edge lines under one node.
pub fn show_arcs(
    current_trie: &DependenciesGraph,
    whole_trie: &DependenciesGraph,
    path: &str,
) -> (r: String)
    ensures
        r@ == arcs_spec(*current_trie, *whole_trie, path@),
    decreases *current_trie,
{
    let mut own = match show_dependencies_from_vertex(current_trie, whole_trie, path) {
        Some(s) => s,
        None => String::new(),
    };
    let ghost cs = current_trie.children@;
    let n = current_trie.children.len();
    let mut parts: Vec<String> = Vec::new();
    let mut i: usize = 0;
    while i < n
        invariant
            n == current_trie.children@.len(),
            cs == current_trie.children@,
            i <= n,
            seq_views(parts@) == crate::formatter::dot_formatter::nonempty_strs(
                children_arcs(cs.subrange(0, i as int), *whole_trie, path@),
            ),
        decreases n - i,
    {
        let mut new_path = path.to_owned();
        new_path.append("::");
        new_path.append(current_trie.children[i].0.as_str());
        proof {
            assert(new_path@ == path@ + "::"@ + cs[i as int].0@);
        }
        let piece = show_arcs(&current_trie.children[i].1, whole_trie, new_path.as_str());
        let ghost parts0 = parts@;
        let keep = piece.unicode_len() > 0;
        if keep {
            parts.push(piece);
        }
        proof {
            let sub1 = cs.subrange(0, i + 1);
            assert(sub1.drop_last() =~= cs.subrange(0, i as int));
            assert(sub1.last() == cs[i as int]);
            lemma_children_arcs_push(sub1, *whole_trie, path@);
            let arcs1 = children_arcs(sub1, *whole_trie, path@);
            assert(arcs1.drop_last() =~= children_arcs(
                cs.subrange(0, i as int),
                *whole_trie,
                path@,
            ));
            if keep {
                crate::text::lemma_seq_views_push(
                    parts0,
                    arcs_spec(cs[i as int].1, *whole_trie, path@ + "::"@ + cs[i as int].0@),
                );
                assert(seq_views(parts@) =~= crate::formatter::dot_formatter::nonempty_strs(
                    arcs1,
                ));
            } else {
                assert(seq_views(parts@) =~= crate::formatter::dot_formatter::nonempty_strs(
                    arcs1,
                ));
            }
        }
        i += 1;
    }
    proof {
        assert(cs.subrange(0, n as int) =~= cs);
    }
    let joined = crate::text::join_strs(&parts, "\n");
    own.append(joined.as_str());
    own
}

/// The whole dot document of this renderer.
pub open spec fn show_spec(trie: DependenciesGraph) -> Seq<char> {
    "digraph dependencies {\n"@ + show_vertices_spec(trie, Seq::empty(), Seq::empty(), 0)
        + arcs_spec(trie, trie, Seq::empty()) + "\n}\n"@
}

/// Renders the registry of classified dependencies.
pub fn show(trie: &DependenciesGraph) -> (r: String)
    requires
        trie.depth() <= usize::MAX,
    ensures
        r@ == show_spec(*trie),
{
    let mut r = "digraph dependencies {\n".to_owned();
    let vertices = show_vertices(trie, "", "", 0);
    r.append(vertices.as_str());
    let arcs = show_arcs(trie, trie, "");
    r.append(arcs.as_str());
    r.append("\n}\n");
    proof {
        reveal_strlit("");
        assert(""@ =~= Seq::<char>::empty());
        assert(r@ =~= show_spec(*trie));
    }
    r
}

} // verus!
