//! The dot renderer: clusters mirror the directory hierarchy, one
//! coloured vertex stands per leaf module, and one deduplicated edge
//! per resolved dependency.

use crate::colors;
use crate::dependencies::{DependencyPath, FilePath};
use crate::dependencies_graph::{registry_ok, DependenciesGraph};
use crate::dependencies_processor::DependencyProcessor;
use crate::formatter::Formatter;
use crate::text::{join_with, repeat_seq, seq_views, sorted_of, sorted_distinct, split_sub};
use crate::trie::{children_depth, lemma_children_depth, Trie};
use vstd::prelude::*;

verus! {

/// A vertex path turned into a cluster name: the separator becomes
/// cluster-safe.
pub open spec fn cluster_id_spec(path: Seq<char>) -> Seq<char> {
    join_with(split_sub(path, "::"@), "___"@)
}

/// Rewrites a vertex path as a cluster name.
pub fn cluster_id(path: &str) -> (r: String)
    ensures
        r@ == cluster_id_spec(path@),
{
    proof {
        reveal_strlit("::");
    }
    let pieces = crate::text::split_str(path, "::");
    crate::text::join_strs(&pieces, "___")
}

/// The full path of a vertex: empty at the root, else the directory
/// followed by the base name.
pub open spec fn vertex_path(dirname: Seq<char>, basename: Seq<char>) -> Seq<char> {
    if basename.len() == 0 {
        Seq::empty()
    } else {
        dirname + "::"@ + basename
    }
}

/// The vertex and cluster declarations under one node.  A leaf
/// becomes one filled vertex coloured from its directory's name; a
/// node with children becomes a cluster with a level-gray border
/// holding its children's output, in key order.
pub open spec fn show_vertices_spec<V>(
    t: Trie<String, V>,
    dirname: Seq<char>,
    basename: Seq<char>,
    level: int,
) -> Seq<char>
    decreases t, 1int,
{
    let path = vertex_path(dirname, basename);
    let ind = repeat_seq("  "@, level);
    if t.children@.len() == 0 {
        ind + "\""@ + path + "\"[label=\""@ + basename + "\",style=\"filled\",fillcolor=\""@
            + colors::color_spec(dirname) + "\"]\n"@
    } else {
        ind + "subgraph cluster_"@ + cluster_id_spec(path) + " {\n"@ + ind + "label=\""@ + basename
            + "\"\n"@ + ind + "color=\""@ + colors::gray_spec(level) + "\"\n"@ + ind
            + "style=\"filled\"\n"@ + children_vertices_spec(t.children@, path, level + 1) + ind
            + "}\n"@
    }
}

/// The concatenated output of a list of child nodes.
pub open spec fn children_vertices_spec<V>(
    cs: Seq<(String, Trie<String, V>)>,
    path: Seq<char>,
    level: int,
) -> Seq<char>
    decreases cs, 0int,
{
    if cs.len() == 0 {
        Seq::empty()
    } else {
        show_vertices_spec(cs[0].1, path, cs[0].0@, level) + children_vertices_spec(
            cs.drop_first(),
            path,
            level,
        )
    }
}

pub proof fn lemma_children_vertices_push<V>(
    cs: Seq<(String, Trie<String, V>)>,
    path: Seq<char>,
    level: int,
)
    requires
        cs.len() > 0,
    ensures
        children_vertices_spec(cs, path, level) == children_vertices_spec(
            cs.drop_last(),
            path,
            level,
        ) + show_vertices_spec(cs.last().1, path, cs.last().0@, level),
    decreases cs.len(),
{
    if cs.len() == 1 {
        assert(cs.drop_last() =~= Seq::<(String, Trie<String, V>)>::empty());
        assert(cs.drop_first() =~= Seq::<(String, Trie<String, V>)>::empty());
        assert(children_vertices_spec(cs.drop_first(), path, level) =~= Seq::<char>::empty());
        assert(children_vertices_spec(cs.drop_last(), path, level) =~= Seq::<char>::empty());
        assert((children_vertices_spec(cs.drop_last(), path, level) + show_vertices_spec(
            cs.last().1,
            path,
            cs.last().0@,
            level,
        )) =~= show_vertices_spec(cs[0].1, path, cs[0].0@, level));
        assert((show_vertices_spec(cs[0].1, path, cs[0].0@, level) + Seq::<char>::empty())
            =~= show_vertices_spec(cs[0].1, path, cs[0].0@, level));
    } else {
        lemma_children_vertices_push(cs.drop_first(), path, level);
        assert(cs.drop_first().drop_last() =~= cs.drop_last().drop_first());
        assert(cs.drop_first().last() == cs.last());
        assert(cs.drop_last()[0] == cs[0]);
        assert(cs.drop_last().len() > 0);
        let head = show_vertices_spec(cs[0].1, path, cs[0].0@, level);
        let midl = children_vertices_spec(cs.drop_last().drop_first(), path, level);
        let tail = show_vertices_spec(cs.last().1, path, cs.last().0@, level);
        assert((head + (midl + tail)) =~= ((head + midl) + tail));
    }
}

/// Writes the vertex and cluster declarations under one node.
pub fn show_vertices<V>(trie: &Trie<String, V>, dirname: &str, basename: &str, level: usize) -> (r:
    String)
    requires
        level + trie.depth() <= usize::MAX,
    ensures
        r@ == show_vertices_spec(*trie, dirname@, basename@, level as int),
    decreases *trie,
{
    let path = if basename.unicode_len() == 0 {
        String::new()
    } else {
        let mut p = dirname.to_owned();
        p.append("::");
        p.append(basename);
        p
    };
    proof {
        assert(path@ == vertex_path(dirname@, basename@));
    }
    let indentation = crate::text::repeat_str("  ", level);
    let mut r = indentation.clone();
    proof {
        assert(r@ == repeat_seq("  "@, level as int));
    }
    if trie.children.len() == 0 {
        r.append("\"");
        r.append(path.as_str());
        r.append("\"[label=\"");
        r.append(basename);
        r.append("\",style=\"filled\",fillcolor=\"");
        let color = colors::make_random_color(dirname);
        r.append(color.as_str());
        r.append("\"]\n");
        proof {
            assert(r@ =~= show_vertices_spec(*trie, dirname@, basename@, level as int));
        }
        r
    } else {
        r.append("subgraph cluster_");
        let cid = cluster_id(path.as_str());
        r.append(cid.as_str());
        r.append(" {\n");
        r.append(indentation.as_str());
        r.append("label=\"");
        r.append(basename);
        r.append("\"\n");
        r.append(indentation.as_str());
        r.append("color=\"");
        let gray = colors::make_gray(level);
        r.append(gray.as_str());
        r.append("\"\n");
        r.append(indentation.as_str());
        r.append("style=\"filled\"\n");
        let ghost header = r@;
        let ghost cs = trie.children@;
        let n = trie.children.len();
        let mut i: usize = 0;
        while i < n
            invariant
                n == trie.children@.len(),
                cs == trie.children@,
                i <= n,
                level + trie.depth() <= usize::MAX,
                r@ == header + children_vertices_spec(
                    cs.subrange(0, i as int),
                    vertex_path(dirname@, basename@),
                    level + 1,
                ),
                path@ == vertex_path(dirname@, basename@),
            decreases n - i,
        {
            proof {
                lemma_children_depth(cs, i as int);
                assert(cs[i as int].1.depth() <= children_depth(cs));
            }
            let piece = show_vertices(
                &trie.children[i].1,
                path.as_str(),
                trie.children[i].0.as_str(),
                level + 1,
            );
            r.append(piece.as_str());
            proof {
                let sub1 = cs.subrange(0, i + 1);
                assert(sub1.drop_last() =~= cs.subrange(0, i as int));
                assert(sub1.last() == cs[i as int]);
                lemma_children_vertices_push(
                    sub1,
                    vertex_path(dirname@, basename@),
                    level + 1,
                );
            }
            i += 1;
        }
        r.append(indentation.as_str());
        r.append("}\n");
        proof {
            assert(cs.subrange(0, n as int) =~= cs);
            assert(r@ =~= show_vertices_spec(*trie, dirname@, basename@, level as int));
        }
        r
    }
}

/// An edge endpoint: the separator, then the path's components
/// joined by it.
pub open spec fn make_vertex_spec(p: Seq<Seq<char>>) -> Seq<char> {
    "::"@ + join_with(p, "::"@)
}

/// Writes an edge endpoint.
pub fn make_vertex(path: &FilePath) -> (r: String)
    ensures
        r@ == make_vertex_spec(seq_views(path.0@)),
{
    let mut r = "::".to_owned();
    let joined = crate::text::join_strs(&path.0, "::");
    r.append(joined.as_str());
    r
}

/// The edge for one dependency, or nothing when its resolved target
/// is empty.
pub open spec fn make_arrow_spec<Processor: DependencyProcessor>(
    trie: DependenciesGraph,
    cur: Seq<Seq<char>>,
    dep: Seq<Seq<char>>,
    pkg: Seq<char>,
) -> Option<Seq<char>> {
    let target = Processor::target_spec(trie, cur, dep, pkg);
    if target.len() == 0 {
        None
    } else {
        Some("\""@ + make_vertex_spec(cur) + "\" -> \""@ + make_vertex_spec(target) + "\""@)
    }
}

/// Writes the edge for one dependency of the unit at `current_path`.
pub fn make_arrow<Processor: DependencyProcessor>(
    trie: &DependenciesGraph,
    current_path: &FilePath,
    dependency: &DependencyPath,
    pkg_name: &str,
) -> (r: Option<String>)
    requires
        dependency.0@.len() > 0,
    ensures
        match r {
            Some(s) => make_arrow_spec::<Processor>(
                *trie,
                seq_views(current_path.0@),
                seq_views(dependency.0@),
                pkg_name@,
            ) == Some(s@),
            None => make_arrow_spec::<Processor>(
                *trie,
                seq_views(current_path.0@),
                seq_views(dependency.0@),
                pkg_name@,
            ) is None,
        },
{
    let target = Processor::compute_target(trie, current_path, dependency, pkg_name);
    if target.0.is_empty() {
        None
    } else {
        let mut s = "\"".to_owned();
        let cur = make_vertex(current_path);
        s.append(cur.as_str());
        s.append("\" -> \"");
        let tgt = make_vertex(&target);
        s.append(tgt.as_str());
        s.append("\"");
        Some(s)
    }
}

/// The deduplicated edges of one unit, in sorted order, joined one
/// per line — or nothing for a node that is no unit.
pub open spec fn show_deps_spec<Processor: DependencyProcessor>(
    cur: DependenciesGraph,
    whole: DependenciesGraph,
    cp: Seq<Seq<char>>,
    pkg: Seq<char>,
) -> Option<Seq<char>> {
    match cur.value {
        None => None,
        Some(ds) => Some(
            join_with(
                sorted_of(
                    Set::new(
                        |t: Seq<char>|
                            exists|i: int|
                                0 <= i < ds@.len() && make_arrow_spec::<Processor>(
                                    whole,
                                    cp,
                                    seq_views((#[trigger] ds@[i]).0@),
                                    pkg,
                                ) == Some(t),
                    ),
                ),
                "\n"@,
            ),
        ),
    }
}

/// Writes the deduplicated, sorted edges of one unit.
pub fn show_dependencies_from_vertex<Processor: DependencyProcessor>(
    current_trie: &DependenciesGraph,
    whole_trie: &DependenciesGraph,
    current_path: &FilePath,
    pkg_name: &str,
) -> (r: Option<String>)
    requires
        registry_ok(*current_trie),
    ensures
        match r {
            Some(s) => show_deps_spec::<Processor>(
                *current_trie,
                *whole_trie,
                seq_views(current_path.0@),
                pkg_name@,
            ) == Some(s@),
            None => show_deps_spec::<Processor>(
                *current_trie,
                *whole_trie,
                seq_views(current_path.0@),
                pkg_name@,
            ) is None,
        },
{
    let ghost cp = seq_views(current_path.0@);
    match &current_trie.value {
        None => None,
        Some(deps) => {
            let ghost ds = *deps;
            let ghost arrows = Set::new(
                |t: Seq<char>|
                    exists|i: int|
                        0 <= i < ds@.len() && make_arrow_spec::<Processor>(
                            *whole_trie,
                            cp,
                            seq_views((#[trigger] ds@[i]).0@),
                            pkg_name@,
                        ) == Some(t),
            );
            let n = deps.len();
            let mut acc: Vec<String> = Vec::new();
            let mut i: usize = 0;
            while i < n
                invariant
                    n == ds@.len(),
                    ds == *deps,
                    cp == seq_views(current_path.0@),
                    registry_ok(*current_trie),
                    current_trie.value == Some(ds),
                    i <= n,
                    sorted_distinct(seq_views(acc@)),
                    seq_views(acc@).to_set() == Set::new(
                        |t: Seq<char>|
                            exists|ii: int|
                                0 <= ii < i && make_arrow_spec::<Processor>(
                                    *whole_trie,
                                    cp,
                                    seq_views((#[trigger] ds@[ii]).0@),
                                    pkg_name@,
                                ) == Some(t),
                    ),
                decreases n - i,
            {
                let ghost acc0 = seq_views(acc@).to_set();
                proof {
                    let dss = current_trie.value->0;
                    assert(dss == ds);
                    assert(dss@[i as int].0@.len() > 0);
                    assert(ds@[i as int].0@.len() > 0);
                }
                match make_arrow::<Processor>(whole_trie, current_path, &deps[i], pkg_name) {
                    Some(arrow) => {
                        crate::text::insert_sorted(&mut acc, arrow);
                    },
                    None => {},
                }
                proof {
                    let goal = Set::new(
                        |t: Seq<char>|
                            exists|ii: int|
                                0 <= ii < i + 1 && make_arrow_spec::<Processor>(
                                    *whole_trie,
                                    cp,
                                    seq_views((#[trigger] ds@[ii]).0@),
                                    pkg_name@,
                                ) == Some(t),
                    );
                    assert(seq_views(acc@).to_set() =~= goal) by {
                        assert forall|t: Seq<char>|
                            seq_views(acc@).to_set().contains(t) implies goal.contains(t) by {
                            if acc0.contains(t) {
                                let ii = choose|ii: int|
                                    0 <= ii < i && make_arrow_spec::<Processor>(
                                        *whole_trie,
                                        cp,
                                        seq_views(ds@[ii].0@),
                                        pkg_name@,
                                    ) == Some(t);
                                assert(0 <= ii < i + 1 && make_arrow_spec::<Processor>(
                                    *whole_trie,
                                    cp,
                                    seq_views(ds@[ii].0@),
                                    pkg_name@,
                                ) == Some(t));
                            } else {
                                assert(make_arrow_spec::<Processor>(
                                    *whole_trie,
                                    cp,
                                    seq_views(ds@[i as int].0@),
                                    pkg_name@,
                                ) == Some(t));
                            }
                        }
                        assert forall|t: Seq<char>| goal.contains(t) implies seq_views(
                            acc@,
                        ).to_set().contains(t) by {
                            let ii = choose|ii: int|
                                0 <= ii < i + 1 && make_arrow_spec::<Processor>(
                                    *whole_trie,
                                    cp,
                                    seq_views(ds@[ii].0@),
                                    pkg_name@,
                                ) == Some(t);
                            if ii < i {
                                assert(acc0.contains(t));
                            }
                        }
                    }
                }
                i += 1;
            }
            proof {
                assert(seq_views(acc@).to_set() =~= arrows);
                crate::text::lemma_sorted_of_eq(seq_views(acc@));
            }
            Some(crate::text::join_strs(&acc, "\n"))
        },
    }
}

/// The strings of `v` that are not empty, in order.
pub open spec fn nonempty_strs(v: Seq<Seq<char>>) -> Seq<Seq<char>>
    decreases v.len(),
{
    if v.len() == 0 {
        Seq::empty()
    } else {
        nonempty_strs(v.drop_last()) + if v.last().len() > 0 {
            seq![v.last()]
        } else {
            Seq::empty()
        }
    }
}

/// The edge lines under one node: the node's own edges, followed by
/// each child's edge lines, the non-empty parts joined one group
/// per line.
pub open spec fn show_arcs_spec<Processor: DependencyProcessor>(
    cur: DependenciesGraph,
    whole: DependenciesGraph,
    p: Seq<Seq<char>>,
    pkg: Seq<char>,
) -> Seq<char>
    decreases cur, 1int,
{
    let own = match show_deps_spec::<Processor>(cur, whole, p, pkg) {
        None => Seq::empty(),
        Some(s) => s,
    };
    own + join_with(
        nonempty_strs(children_arcs_spec::<Processor>(cur.children@, whole, p, pkg)),
        "\n"@,
    )
}

/// The edge lines of each child, in key order.
pub open spec fn children_arcs_spec<Processor: DependencyProcessor>(
    cs: Seq<(String, DependenciesGraph)>,
    whole: DependenciesGraph,
    p: Seq<Seq<char>>,
    pkg: Seq<char>,
) -> Seq<Seq<char>>
    decreases cs, 0int,
{
    if cs.len() == 0 {
        Seq::empty()
    } else {
        seq![show_arcs_spec::<Processor>(cs[0].1, whole, p.push(cs[0].0@), pkg)]
            + children_arcs_spec::<Processor>(cs.drop_first(), whole, p, pkg)
    }
}

proof fn lemma_children_arcs_push<Processor: DependencyProcessor>(
    cs: Seq<(String, DependenciesGraph)>,
    whole: DependenciesGraph,
    p: Seq<Seq<char>>,
    pkg: Seq<char>,
)
    requires
        cs.len() > 0,
    ensures
        children_arcs_spec::<Processor>(cs, whole, p, pkg) == children_arcs_spec::<Processor>(
            cs.drop_last(),
            whole,
            p,
            pkg,
        ).push(show_arcs_spec::<Processor>(cs.last().1, whole, p.push(cs.last().0@), pkg)),
    decreases cs.len(),
{
    if cs.len() == 1 {
        assert(cs.drop_last() =~= Seq::<(String, DependenciesGraph)>::empty());
        assert(cs.drop_first() =~= Seq::<(String, DependenciesGraph)>::empty());
        assert(children_arcs_spec::<Processor>(cs.drop_first(), whole, p, pkg) =~= Seq::<
            Seq<char>,
        >::empty());
        assert(children_arcs_spec::<Processor>(cs.drop_last(), whole, p, pkg) =~= Seq::<
            Seq<char>,
        >::empty());
        assert(children_arcs_spec::<Processor>(cs, whole, p, pkg) =~= children_arcs_spec::<
            Processor,
        >(cs.drop_last(), whole, p, pkg).push(
            show_arcs_spec::<Processor>(cs.last().1, whole, p.push(cs.last().0@), pkg),
        ));
    } else {
        lemma_children_arcs_push::<Processor>(cs.drop_first(), whole, p, pkg);
        assert(cs.drop_first().drop_last() =~= cs.drop_last().drop_first());
        assert(cs.drop_first().last() == cs.last());
        assert(cs.drop_last()[0] == cs[0]);
        assert(cs.drop_last().len() > 0);
        let head = seq![show_arcs_spec::<Processor>(cs[0].1, whole, p.push(cs[0].0@), pkg)];
        let midl = children_arcs_spec::<Processor>(cs.drop_last().drop_first(), whole, p, pkg);
        let tail = show_arcs_spec::<Processor>(cs.last().1, whole, p.push(cs.last().0@), pkg);
        assert((head + midl.push(tail)) =~= (head + midl).push(tail));
    }
}

/// Writes the edge lines under one node.
pub fn show_arcs<Processor: DependencyProcessor>(
    current_trie: &DependenciesGraph,
    whole_trie: &DependenciesGraph,
    path: &FilePath,
    pkg_name: &str,
) -> (r: String)
    requires
        registry_ok(*current_trie),
    ensures
        r@ == show_arcs_spec::<Processor>(
            *current_trie,
            *whole_trie,
            seq_views(path.0@),
            pkg_name@,
        ),
    decreases *current_trie,
{
    let ghost p = seq_views(path.0@);
    let mut own = match show_dependencies_from_vertex::<Processor>(
        current_trie,
        whole_trie,
        path,
        pkg_name,
    ) {
        Some(s) => s,
        None => String::new(),
    };
    let ghost cs = current_trie.children@;
    let n = current_trie.children.len();
    let mut parts: Vec<String> = Vec::new();
    let mut i: usize = 0;
    while i < n
        invariant
            n == current_trie.children@.len(),
            cs == current_trie.children@,
            p == seq_views(path.0@),
            registry_ok(*current_trie),
            i <= n,
            seq_views(parts@) == nonempty_strs(
                children_arcs_spec::<Processor>(
                    cs.subrange(0, i as int),
                    *whole_trie,
                    p,
                    pkg_name@,
                ),
            ),
        decreases n - i,
    {
        let mut new_path = path.0.clone();
        proof {
            assert(seq_views(new_path@) =~= p);
        }
        let name = current_trie.children[i].0.clone();
        proof {
            assert(name@ == cs[i as int].0@);
        }
        let ghost np0 = new_path@;
        new_path.push(name);
        proof {
            crate::text::lemma_seq_views_push(np0, cs[i as int].0@);
            assert(seq_views(new_path@) == seq_views(np0).push(cs[i as int].0@));
            assert(seq_views(new_path@) == p.push(cs[i as int].0@));
            assert(registry_ok(cs[i as int].1));
        }
        let piece = show_arcs::<Processor>(
            &current_trie.children[i].1,
            whole_trie,
            &FilePath(new_path),
            pkg_name,
        );
        let ghost parts0 = parts@;
        let keep = piece.unicode_len() > 0;
        if keep {
            parts.push(piece);
        }
        proof {
            let sub1 = cs.subrange(0, i + 1);
            assert(sub1.drop_last() =~= cs.subrange(0, i as int));
            assert(sub1.last() == cs[i as int]);
            lemma_children_arcs_push::<Processor>(sub1, *whole_trie, p, pkg_name@);
            let arcs1 = children_arcs_spec::<Processor>(sub1, *whole_trie, p, pkg_name@);
            assert(arcs1.drop_last() =~= children_arcs_spec::<Processor>(
                cs.subrange(0, i as int),
                *whole_trie,
                p,
                pkg_name@,
            ));
            if keep {
                crate::text::lemma_seq_views_push(
                    parts0,
                    show_arcs_spec::<Processor>(
                        cs[i as int].1,
                        *whole_trie,
                        p.push(cs[i as int].0@),
                        pkg_name@,
                    ),
                );
                assert(seq_views(parts@) =~= nonempty_strs(arcs1));
            } else {
                assert(seq_views(parts@) =~= nonempty_strs(arcs1));
            }
        }
        i += 1;
    }
    proof {
        assert(cs.subrange(0, n as int) =~= cs);
    }
    let joined = crate::text::join_strs(&parts, "\n");
    own.append(joined.as_str());
    own
}

/// The dot renderer.
pub struct DotFormatter {}

/// The whole dot document: the opening declaration, the clustered
/// vertices, the deduplicated edges and the closing brace.
pub open spec fn dot_show_spec<Processor: DependencyProcessor>(
    trie: DependenciesGraph,
    pkg_name: Seq<char>,
) -> Seq<char> {
    "digraph dependencies {\n"@ + show_vertices_spec(trie, Seq::empty(), Seq::empty(), 0)
        + show_arcs_spec::<Processor>(trie, trie, Seq::empty(), pkg_name) + "\n}\n"@
}

/// The whole pipeline's output is a pure function of the registry's
/// content and the package name: any two documents rendered from
/// equal registries are identical, byte for byte — the colours are
/// hashed deterministically and the edge sets come out in their one
/// sorted order.
pub proof fn lemma_show_deterministic<Processor: DependencyProcessor>(
    t1: DependenciesGraph,
    t2: DependenciesGraph,
    pkg1: Seq<char>,
    pkg2: Seq<char>,
    r1: Seq<char>,
    r2: Seq<char>,
)
    requires
        t1 == t2,
        pkg1 == pkg2,
        r1 == dot_show_spec::<Processor>(t1, pkg1),
        r2 == dot_show_spec::<Processor>(t2, pkg2),
    ensures
        r1 == r2,
{
}

impl<Processor: DependencyProcessor> Formatter<Processor> for DotFormatter {
    open spec fn show_spec(trie: DependenciesGraph, pkg_name: Seq<char>) -> Seq<char> {
        dot_show_spec::<Processor>(trie, pkg_name)
    }

    fn show(trie: &DependenciesGraph, pkg_name: &str) -> (r: String) {
        let mut r = "digraph dependencies {\n".to_owned();
        let vertices = show_vertices(trie, "", "", 0);
        r.append(vertices.as_str());
        let arcs = show_arcs::<Processor>(trie, trie, &FilePath(Vec::new()), pkg_name);
        r.append(arcs.as_str());
        r.append("\n}\n");
        proof {
            reveal_strlit("");
            assert(""@ =~= Seq::<char>::empty());
            assert(seq_views(Seq::<String>::empty()) =~= Seq::<Seq<char>>::empty());
            assert(r@ =~= dot_show_spec::<Processor>(*trie, pkg_name@));
        }
        r
    }
}

} // verus!
