//! The first shape of the dot output, kept for reference: plain
//! vertices without colours, a module vertex inside each cluster,
//! and edges that follow the longest known prefix only.

use crate::components::ModuleComponents;
use crate::text::{join_with, seq_views, sorted_distinct, sorted_of};
use crate::trie::{key_views, Trie};
use vstd::prelude::*;

verus! {

/// The registry this renderer reads: each unit's value holds bare
/// dependency paths.
pub type DependenciesGraph = Trie<String, Vec<ModuleComponents>>;

/// A vertex path turned into a cluster name.
pub open spec fn cluster_id_spec(path: Seq<char>) -> Seq<char> {
    join_with(crate::text::split_sub(path, "::"@), "___"@)
}

/// Rewrites a vertex path as a cluster name.
pub fn cluster_id(path: &str) -> (r: String)
    ensures
        r@ == cluster_id_spec(path@),
{
    proof {
        reveal_strlit("::");
    }
    let pieces = crate::text::split_str(path, "::");
    crate::text::join_strs(&pieces, "___")
}

/// The vertex declarations under one node: a leaf is one plain
/// vertex; a node with children is a cluster holding a vertex for
/// its own defining module (except at the root) and its children's
/// output.
pub open spec fn vertices_spec(t: DependenciesGraph, path: Seq<char>, basename: Seq<char>) -> Seq<
    char,
>
    decreases t, 1int,
{
    if t.children@.len() == 0 {
        "\""@ + path + "\"[label=\""@ + basename + "\"]\n"@
    } else {
        let module_node = if path.len() == 0 {
            Seq::<char>::empty()
        } else {
            "\""@ + path + "\"[label=\""@ + basename + "::mod"@ + "\"]\n"@
        };
        "subgraph cluster_"@ + cluster_id_spec(path) + " {\n"@ + "label=\""@ + basename + "\"\n"@
            + module_node + children_vertices(t.children@, path) + "}\n"@
    }
}

/// The concatenated output of a list of child nodes.
pub open spec fn children_vertices(cs: Seq<(String, DependenciesGraph)>, path: Seq<char>) -> Seq<
    char,
>
    decreases cs, 0int,
{
    if cs.len() == 0 {
        Seq::empty()
    } else {
        vertices_spec(cs[0].1, path + "::"@ + cs[0].0@, cs[0].0@) + children_vertices(
            cs.drop_first(),
            path,
        )
    }
}

proof fn lemma_children_vertices_push(cs: Seq<(String, DependenciesGraph)>, path: Seq<char>)
    requires
        cs.len() > 0,
    ensures
        children_vertices(cs, path) == children_vertices(cs.drop_last(), path) + vertices_spec(
            cs.last().1,
            path + "::"@ + cs.last().0@,
            cs.last().0@,
        ),
    decreases cs.len(),
{
    if cs.len() == 1 {
        assert(cs.drop_last() =~= Seq::<(String, DependenciesGraph)>::empty());
        assert(cs.drop_first() =~= Seq::<(String, DependenciesGraph)>::empty());
        assert(children_vertices(cs.drop_first(), path) =~= Seq::<char>::empty());
        assert(children_vertices(cs.drop_last(), path) =~= Seq::<char>::empty());
        let v = vertices_spec(cs[0].1, path + "::"@ + cs[0].0@, cs[0].0@);
        assert((v + Seq::<char>::empty()) =~= v);
        assert((Seq::<char>::empty() + v) =~= v);
    } else {
        lemma_children_vertices_push(cs.drop_first(), path);
        assert(cs.drop_first().drop_last() =~= cs.drop_last().drop_first());
        assert(cs.drop_first().last() == cs.last());
        assert(cs.drop_last()[0] == cs[0]);
        assert(cs.drop_last().len() > 0);
        let head = vertices_spec(cs[0].1, path + "::"@ + cs[0].0@, cs[0].0@);
        let midl = children_vertices(cs.drop_last().drop_first(), path);
        let tail = vertices_spec(cs.last().1, path + "::"@ + cs.last().0@, cs.last().0@);
        assert((head + (midl + tail)) =~= ((head + midl) + tail));
    }
}

/// Writes the vertex declarations under one node.
pub fn show_vertices(trie: &DependenciesGraph, path: &str, basename: &str) -> (r: String)
    ensures
        r@ == vertices_spec(*trie, path@, basename@),
    decreases *trie,
{
    if trie.children.len() == 0 {
        let mut r = "\"".to_owned();
        r.append(path);
        r.append("\"[label=\"");
        r.append(basename);
        r.append("\"]\n");
        proof {
            assert(r@ =~= vertices_spec(*trie, path@, basename@));
        }
        r
    } else {
        let mut r = "subgraph cluster_".to_owned();
        let cid = cluster_id(path);
        r.append(cid.as_str());
        r.append(" {\n");
        r.append("label=\"");
        r.append(basename);
        r.append("\"\n");
        if path.unicode_len() > 0 {
            r.append("\"");
            r.append(path);
            r.append("\"[label=\"");
            r.append(basename);
            r.append("::mod");
            r.append("\"]\n");
        }
        let ghost header = r@;
        let ghost cs = trie.children@;
        let n = trie.children.len();
        let mut i: usize = 0;
        while i < n
            invariant
                n == trie.children@.len(),
                cs == trie.children@,
                i <= n,
                r@ == header + children_vertices(cs.subrange(0, i as int), path@),
            decreases n - i,
        {
            let mut child_path = path.to_owned();
            child_path.append("::");
            child_path.append(trie.children[i].0.as_str());
            proof {
                assert(child_path@ == path@ + "::"@ + cs[i as int].0@);
            }
            let piece = show_vertices(
                &trie.children[i].1,
                child_path.as_str(),
                trie.children[i].0.as_str(),
            );
            r.append(piece.as_str());
            proof {
                let sub1 = cs.subrange(0, i + 1);
                assert(sub1.drop_last() =~= cs.subrange(0, i as int));
                assert(sub1.last() == cs[i as int]);
                lemma_children_vertices_push(sub1, path@);
            }
            i += 1;
        }
        r.append("}\n");
        proof {
            assert(cs.subrange(0, n as int) =~= cs);
            assert(r@ =~= vertices_spec(*trie, path@, basename@));
        }
        r
    }
}

/// The edge for one dependency path: nothing when no prefix of it is
/// known, else an edge to its longest known prefix.
pub open spec fn arrow_spec(
    trie: DependenciesGraph,
    path: Seq<char>,
    comps: Seq<Seq<char>>,
) -> Option<Seq<char>> {
    if trie.prefix_len(comps) == 0 {
        None
    } else {
        Some(
            "\""@ + path + "\" -> \"::"@ + join_with(
                comps.subrange(0, trie.prefix_len(comps) as int),
                "::"@,
            ) + "\""@,
        )
    }
}

/// Writes the edge for one dependency path.
pub fn make_arrow(trie: &DependenciesGraph, path: &str, v: &ModuleComponents) -> (r: Option<
    String,
>)
    ensures
        match r {
            Some(s) => arrow_spec(*trie, path@, seq_views(v.0@)) == Some(s@),
            None => arrow_spec(*trie, path@, seq_views(v.0@)) is None,
        },
{
    let ghost comps = seq_views(v.0@);
    let (longest_prefix, _value) = trie.get_longest_prefix(v.0.as_slice());
    proof {
        trie.lemma_prefix_len_le(comps);
        assert(key_views(v.0@) =~= comps);
        assert(seq_views(longest_prefix@) =~= comps.subrange(0, trie.prefix_len(comps) as int));
    }
    if longest_prefix.is_empty() {
        None
    } else {
        let mut s = "\"".to_owned();
        s.append(path);
        s.append("\" -> \"::");
        let joined = crate::text::join_strs_slice(longest_prefix, "::");
        s.append(joined.as_str());
        s.append("\"");
        Some(s)
    }
}

/// The deduplicated edges of one unit, sorted, one per line — or
/// nothing for a node that is no unit.
pub open spec fn deps_lines_spec(
    cur: DependenciesGraph,
    whole: DependenciesGraph,
    path: Seq<char>,
) -> Option<Seq<char>> {
    match cur.value {
        None => None,
        Some(ds) => Some(
            join_with(
                sorted_of(
                    Set::new(
                        |t: Seq<char>|
                            exists|i: int|
                                0 <= i < ds@.len() && arrow_spec(
                                    whole,
                                    path,
                                    seq_views((#[trigger] ds@[i]).0@),
                                ) == Some(t),
                    ),
                ),
                "\n"@,
            ),
        ),
    }
}

/// Writes the deduplicated, sorted edges of one unit.
pub fn show_dependencies_from_vertex(
    current_trie: &DependenciesGraph,
    whole_trie: &DependenciesGraph,
    path: &str,
) -> (r: Option<String>)
    ensures
        match r {
            Some(s) => deps_lines_spec(*current_trie, *whole_trie, path@) == Some(s@),
            None => deps_lines_spec(*current_trie, *whole_trie, path@) is None,
        },
{
    match &current_trie.value {
        None => None,
        Some(deps) => {
            let ghost ds = *deps;
            let n = deps.len();
            let mut acc: Vec<String> = Vec::new();
            let mut i: usize = 0;
            while i < n
                invariant
                    n == ds@.len(),
                    ds == *deps,
                    i <= n,
                    sorted_distinct(seq_views(acc@)),
                    seq_views(acc@).to_set() == Set::new(
                        |t: Seq<char>|
                            exists|ii: int|
                                0 <= ii < i && arrow_spec(
                                    *whole_trie,
                                    path@,
                                    seq_views((#[trigger] ds@[ii]).0@),
                                ) == Some(t),
                    ),
                decreases n - i,
            {
                let ghost acc0 = seq_views(acc@).to_set();
                match make_arrow(whole_trie, path, &deps[i]) {
                    Some(arrow) => {
                        crate::text::insert_sorted(&mut acc, arrow);
                    },
                    None => {},
                }
                proof {
                    let goal = Set::new(
                        |t: Seq<char>|
                            exists|ii: int|
                                0 <= ii < i + 1 && arrow_spec(
                                    *whole_trie,
                                    path@,
                                    seq_views((#[trigger] ds@[ii]).0@),
                                ) == Some(t),
                    );
                    assert(seq_views(acc@).to_set() =~= goal) by {
                        assert forall|t: Seq<char>|
                            seq_views(acc@).to_set().contains(t) implies goal.contains(t) by {
                            if acc0.contains(t) {
                                let ii = choose|ii: int|
                                    0 <= ii < i && arrow_spec(
                                        *whole_trie,
                                        path@,
                                        seq_views(ds@[ii].0@),
                                    ) == Some(t);
                                assert(0 <= ii < i + 1 && arrow_spec(
                                    *whole_trie,
                                    path@,
                                    seq_views(ds@[ii].0@),
                                ) == Some(t));
                            } else {
                                assert(arrow_spec(
                                    *whole_trie,
                                    path@,
                                    seq_views(ds@[i as int].0@),
                                ) == Some(t));
                            }
                        }
                        assert forall|t: Seq<char>| goal.contains(t) implies seq_views(
                            acc@,
                        ).to_set().contains(t) by {
                            let ii = choose|ii: int|
                                0 <= ii < i + 1 && arrow_spec(
                                    *whole_trie,
                                    path@,
                                    seq_views(ds@[ii].0@),
                                ) == Some(t);
                            if ii < i {
                                assert(acc0.contains(t));
                            }
                        }
                    }
                }
                i += 1;
            }
            proof {
                crate::text::lemma_sorted_of_eq(seq_views(acc@));
            }
            Some(crate::text::join_strs(&acc, "\n"))
        },
    }
}

/// The edge lines under one node: a leaf's own edges; an inner
/// node's children's non-empty line groups, one per line.
pub open spec fn arcs_spec(
    cur: DependenciesGraph,
    whole: DependenciesGraph,
    path: Seq<char>,
) -> Seq<char>
    decreases cur, 1int,
{
    if cur.children@.len() == 0 {
        match deps_lines_spec(cur, whole, path) {
            None => Seq::<char>::empty(),
            Some(s) => s,
        }
    } else {
        join_with(
            crate::formatter::dot_formatter::nonempty_strs(
                children_arcs(cur.children@, whole, path),
            ),
            "\n"@,
        )
    }
}

/// The edge lines of each child, in key order.
pub open spec fn children_arcs(
    cs: Seq<(String, DependenciesGraph)>,
    whole: DependenciesGraph,
    path: Seq<char>,
) -> Seq<Seq<char>>
    decreases cs, 0int,
{
    if cs.len() == 0 {
        Seq::empty()
    } else {
        seq![arcs_spec(cs[0].1, whole, path + "::"@ + cs[0].0@)] + children_arcs(
            cs.drop_first(),
            whole,
            path,
        )
    }
}

proof fn lemma_children_arcs_push(
    cs: Seq<(String, DependenciesGraph)>,
    whole: DependenciesGraph,
    path: Seq<char>,
)
    requires
        cs.len() > 0,
    ensures
        children_arcs(cs, whole, path) == children_arcs(cs.drop_last(), whole, path).push(
            arcs_spec(cs.last().1, whole, path + "::"@ + cs.last().0@),
        ),
    decreases cs.len(),
{
    if cs.len() == 1 {
        assert(cs.drop_last() =~= Seq::<(String, DependenciesGraph)>::empty());
        assert(cs.drop_first() =~= Seq::<(String, DependenciesGraph)>::empty());
        assert(children_arcs(cs.drop_first(), whole, path) =~= Seq::<Seq<char>>::empty());
        assert(children_arcs(cs.drop_last(), whole, path) =~= Seq::<Seq<char>>::empty());
        assert(children_arcs(cs, whole, path) =~= children_arcs(cs.drop_last(), whole, path).push(
            arcs_spec(cs.last().1, whole, path + "::"@ + cs.last().0@),
        ));
    } else {
        lemma_children_arcs_push(cs.drop_first(), whole, path);
        assert(cs.drop_first().drop_last() =~= cs.drop_last().drop_first());
        assert(cs.drop_first().last() == cs.last());
        assert(cs.drop_last()[0] == cs[0]);
        assert(cs.drop_last().len() > 0);
        let head = seq![arcs_spec(cs[0].1, whole, path + "::"@ + cs[0].0@)];
        let midl = children_arcs(cs.drop_last().drop_first(), whole, path);
        let tail = arcs_spec(cs.last().1, whole, path + "::"@ + cs.last().0@);
        assert((head + midl.push(tail)) =~= (head + midl).push(tail));
    }
}

/// Writes the edge lines under one node.
pub fn show_arcs(
    current_trie: &DependenciesGraph,
    whole_trie: &DependenciesGraph,
    path: &str,
) -> (r: String)
    ensures
        r@ == arcs_spec(*current_trie, *whole_trie, path@),
    decreases *current_trie,
{
    if current_trie.children.len() == 0 {
        return match show_dependencies_from_vertex(current_trie, whole_trie, path) {
            Some(s) => s,
            None => String::new(),
        };
    }
    let ghost cs = current_trie.children@;
    let n = current_trie.children.len();
    let mut parts: Vec<String> = Vec::new();
    let mut i: usize = 0;
    while i < n
        invariant
            n == current_trie.children@.len(),
            cs == current_trie.children@,
            i <= n,
            seq_views(parts@) == crate::formatter::dot_formatter::nonempty_strs(
                children_arcs(cs.subrange(0, i as int), *whole_trie, path@),
            ),
        decreases n - i,
    {
        let mut new_path = path.to_owned();
        new_path.append("::");
        new_path.append(current_trie.children[i].0.as_str());
        proof {
            assert(new_path@ == path@ + "::"@ + cs[i as int].0@);
        }
        let piece = show_arcs(&current_trie.children[i].1, whole_trie, new_path.as_str());
        let ghost parts0 = parts@;
        let keep = piece.unicode_len() > 0;
        if keep {
            parts.push(piece);
        }
        proof {
            let sub1 = cs.subrange(0, i + 1);
            assert(sub1.drop_last() =~= cs.subrange(0, i as int));
            assert(sub1.last() == cs[i as int]);
            lemma_children_arcs_push(sub1, *whole_trie, path@);
            let arcs1 = children_arcs(sub1, *whole_trie, path@);
            assert(arcs1.drop_last() =~= children_arcs(
                cs.subrange(0, i as int),
                *whole_trie,
                path@,
            ));
            if keep {
                crate::text::lemma_seq_views_push(
                    parts0,
                    arcs_spec(cs[i as int].1, *whole_trie, path@ + "::"@ + cs[i as int].0@),
                );
                assert(seq_views(parts@) =~= crate::formatter::dot_formatter::nonempty_strs(
                    arcs1,
                ));
            } else {
                assert(seq_views(parts@) =~= crate::formatter::dot_formatter::nonempty_strs(
                    arcs1,
                ));
            }
        }
        i += 1;
    }
    proof {
        assert(cs.subrange(0, n as int) =~= cs);
    }
    crate::text::join_strs(&parts, "\n")
}

/// The whole dot document of this renderer.
pub open spec fn show_spec(trie: DependenciesGraph) -> Seq<char> {
    "digraph dependencies {\n"@ + vertices_spec(trie, Seq::empty(), Seq::empty()) + arcs_spec(
        trie,
        trie,
        Seq::empty(),
    ) + "\n}\n"@
}

/// Renders the registry of bare dependency paths.
pub fn show(trie: &DependenciesGraph) -> (r: String)
    ensures
        r@ == show_spec(*trie),
{
    let mut r = "digraph dependencies {\n".to_owned();
    let vertices = show_vertices(trie, "", "");
    r.append(vertices.as_str());
    let arcs = show_arcs(trie, trie, "");
    r.append(arcs.as_str());
    r.append("\n}\n");
    proof {
        reveal_strlit("");
        assert(""@ =~= Seq::<char>::empty());
        assert(r@ =~= show_spec(*trie));
    }
    r
}

} // verus!
