//! A display tree built from the flat registry's paths: each node
//! remembers its full path, its base name and a running cluster
//! number, and renders itself as nested cluster blocks.

use crate::text::{dec_seq, seq_views};
use vstd::prelude::*;

verus! {

/// One node of the display tree.
pub struct ModulesTrie {
    pub path: String,
    pub basename: String,
    pub cluster_id: usize,
    pub children: Vec<(String, ModulesTrie)>,
}

/// The key views of a node's children.
pub open spec fn mt_keys(cs: Seq<(String, ModulesTrie)>) -> Seq<Seq<char>> {
    cs.map_values(|c: (String, ModulesTrie)| c.0@)
}

/// Index of the first key equal to `k`, or `-1`.
pub open spec fn first_key_index(keys: Seq<Seq<char>>, k: Seq<char>) -> int
    decreases keys.len(),
{
    if keys.len() == 0 {
        -1
    } else if keys[0] == k {
        0
    } else {
        let r = first_key_index(keys.drop_first(), k);
        if r < 0 {
            -1
        } else {
            r + 1
        }
    }
}

pub proof fn lemma_first_key_index_props(keys: Seq<Seq<char>>, k: Seq<char>)
    ensures
        first_key_index(keys, k) >= 0 ==> {
            let r = first_key_index(keys, k);
            &&& r < keys.len()
            &&& keys[r] == k
            &&& forall|j: int| 0 <= j < r ==> keys[j] != k
        },
        first_key_index(keys, k) < 0 ==> forall|j: int| 0 <= j < keys.len() ==> keys[j] != k,
    decreases keys.len(),
{
    if keys.len() > 0 && keys[0] != k {
        let rest = keys.drop_first();
        lemma_first_key_index_props(rest, k);
        let r0 = first_key_index(rest, k);
        if r0 >= 0 {
            assert(keys[r0 + 1] == rest[r0]);
            assert forall|j: int| 0 <= j < r0 + 1 implies keys[j] != k by {
                if j > 0 {
                    assert(keys[j] == rest[j - 1]);
                }
            }
        } else {
            assert forall|j: int| 0 <= j < keys.len() implies keys[j] != k by {
                if j > 0 {
                    assert(keys[j] == rest[j - 1]);
                }
            }
        }
    }
}

impl ModulesTrie {
    /// The child reached by one key view, if any.
    pub open spec fn spec_child(self, k: Seq<char>) -> Option<ModulesTrie> {
        let i = first_key_index(mt_keys(self.children@), k);
        if i < 0 {
            None
        } else {
            Some(self.children@[i].1)
        }
    }

    /// Whether the whole path `q` exists as a chain of nodes.
    pub open spec fn has_node(self, q: Seq<Seq<char>>) -> bool
        decreases q.len(),
    {
        if q.len() == 0 {
            true
        } else {
            match self.spec_child(q[0]) {
                None => false,
                Some(c) => c.has_node(q.drop_first()),
            }
        }
    }

    /// The node at the end of the path `q`, when the whole path
    /// exists.
    pub open spec fn node_at(self, q: Seq<Seq<char>>) -> ModulesTrie
        decreases q.len(),
    {
        if q.len() == 0 {
            self
        } else {
            match self.spec_child(q[0]) {
                None => self,
                Some(c) => c.node_at(q.drop_first()),
            }
        }
    }
}

/// `base` extended by a separator and component for each element of
/// `p`, in order.
pub open spec fn joined_path(base: Seq<char>, p: Seq<Seq<char>>) -> Seq<char>
    decreases p.len(),
{
    if p.len() == 0 {
        base
    } else {
        joined_path(base + "::"@ + p[0], p.drop_first())
    }
}

/// Grows the display tree along `components`: a node is added for
/// every component not yet present, each new node remembering its
/// full path and the then-current cluster number, which rises by one
/// per component walked.  The risen number comes back.
pub fn insert(components: &[String], path: String, cluster_id: usize, trie: &mut ModulesTrie) -> (r:
    usize)
    requires
        cluster_id + components@.len() <= usize::MAX,
    ensures
        r == cluster_id + components@.len(),
        forall|p: Seq<Seq<char>>|
            #[trigger] final(trie).has_node(p) <==> old(trie).has_node(p)
                || crate::trie::is_prefix_of(p, seq_views(components@)),
        forall|p: Seq<Seq<char>>|
            crate::trie::is_prefix_of(p, seq_views(components@)) && p.len() > 0 && !old(
                trie,
            ).has_node(p) ==> {
                let nd = #[trigger] final(trie).node_at(p);
                &&& nd.basename@ == p.last()
                &&& nd.path@ == joined_path(path@, p)
                &&& nd.cluster_id as int == cluster_id + p.len() - 1
            },
        final(trie).path == old(trie).path,
        final(trie).basename == old(trie).basename,
        final(trie).cluster_id == old(trie).cluster_id,
    decreases components@.len(),
{
    let ghost kv = seq_views(components@);
    let ghost t0 = *trie;
    if components.len() == 0 {
        proof {
            assert(kv =~= Seq::<Seq<char>>::empty());
            assert forall|p: Seq<Seq<char>>| #[trigger] trie.has_node(p) <==> t0.has_node(p)
                || crate::trie::is_prefix_of(p, kv) by {
                if p.len() == 0 {
                    assert(p =~= kv.subrange(0, 0));
                }
            }
        }
        return cluster_id;
    }
    let elt = vstd::slice::slice_index_get(components, 0);
    let mut child_path = path.clone();
    child_path.append("::");
    child_path.append(elt.as_str());
    let ghost cpv = child_path@;
    proof {
        assert(cpv == path@ + "::"@ + kv[0]);
    }
    let n = trie.children.len();
    let mut idx: usize = 0;
    let mut found = false;
    while idx < n && !found
        invariant
            n == trie.children@.len(),
            *trie == t0,
            idx <= n,
            *elt == components@[0],
            found ==> idx < n && trie.children@[idx as int].0@ == elt@,
            forall|j: int| 0 <= j < idx ==> trie.children@[j].0@ != elt@,
        decreases n - idx + if found {
            0int
        } else {
            1int
        },
    {
        if crate::text::str_eq(trie.children[idx].0.as_str(), elt.as_str()) {
            found = true;
        } else {
            idx += 1;
        }
    }
    let rest = vstd::slice::slice_subrange(components, 1, components.len());
    proof {
        assert(rest@ =~= components@.drop_first());
        assert(seq_views(rest@) =~= kv.drop_first());
    }
    if found {
        proof {
            lemma_first_key_index_props(mt_keys(trie.children@), kv[0]);
            assert(mt_keys(trie.children@)[idx as int] == elt@);
            assert(elt@ == kv[0]);
            assert(first_key_index(mt_keys(trie.children@), kv[0]) == idx) by {
                let r = first_key_index(mt_keys(trie.children@), kv[0]);
                if r < 0 {
                    assert(mt_keys(trie.children@)[idx as int] != kv[0]);
                } else if r < idx {
                    assert(trie.children@[r].0@ != elt@);
                    assert(mt_keys(trie.children@)[r] == trie.children@[r].0@);
                } else if r > idx {
                    assert(mt_keys(trie.children@)[idx as int] != kv[0]);
                }
            }
        }
        let ghost cs0 = trie.children@;
        let mut pair = trie.children.remove(idx);
        let ghost child0 = pair.1;
        let r = insert(rest, child_path, cluster_id + 1, &mut pair.1);
        let ghost child1 = pair.1;
        trie.children.insert(idx, pair);
        proof {
            let cs1 = trie.children@;
            assert(cs1 =~= cs0.update(idx as int, (cs0[idx as int].0, child1)));
            assert(mt_keys(cs1) =~= mt_keys(cs0));
            assert(trie.spec_child(kv[0]) == Some(child1)) by {
                lemma_first_key_index_props(mt_keys(cs1), kv[0]);
                assert(first_key_index(mt_keys(cs1), kv[0]) == first_key_index(
                    mt_keys(cs0),
                    kv[0],
                ));
            }
            assert(t0.spec_child(kv[0]) == Some(child0));
            assert forall|x: Seq<char>| x != kv[0] implies trie.spec_child(x) == t0.spec_child(
                x,
            ) by {
                assert(first_key_index(mt_keys(cs1), x) == first_key_index(mt_keys(cs0), x));
                lemma_first_key_index_props(mt_keys(cs0), x);
                let i = first_key_index(mt_keys(cs0), x);
                if i >= 0 {
                    assert(mt_keys(cs0)[i] == x);
                    assert(cs0[i].0@ == x);
                    assert(i != idx);
                    assert(cs1[i] == cs0[i]);
                }
            }
            assert forall|p: Seq<Seq<char>>| #[trigger] trie.has_node(p) <==> t0.has_node(p)
                || crate::trie::is_prefix_of(p, kv) by {
                if p.len() == 0 {
                    assert(p =~= kv.subrange(0, 0));
                } else if p[0] == kv[0] {
                    assert(trie.has_node(p) == child1.has_node(p.drop_first()));
                    assert(t0.has_node(p) == child0.has_node(p.drop_first()));
                    lemma_prefix_drop_mt(p, kv);
                } else {
                    assert(!crate::trie::is_prefix_of(p, kv)) by {
                        if crate::trie::is_prefix_of(p, kv) {
                            assert(p[0] == kv.subrange(0, p.len() as int)[0]);
                        }
                    }
                }
            }
            assert forall|p: Seq<Seq<char>>|
                crate::trie::is_prefix_of(p, kv) && p.len() > 0 && !t0.has_node(p) implies {
                let nd = #[trigger] trie.node_at(p);
                &&& nd.basename@ == p.last()
                &&& nd.path@ == joined_path(path@, p)
                &&& nd.cluster_id as int == cluster_id + p.len() - 1
            } by {
                assert(p[0] == kv.subrange(0, p.len() as int)[0]);
                assert(trie.node_at(p) == child1.node_at(p.drop_first()));
                if p.len() == 1 {
                    assert(p[0] == kv[0]);
                    assert(p.drop_first() =~= Seq::<Seq<char>>::empty());
                    assert(t0.spec_child(p[0]) == Some(child0));
                    assert(child0.has_node(p.drop_first()));
                    assert(t0.has_node(p));
                } else {
                    let q = p.drop_first();
                    lemma_prefix_drop_mt(p, kv);
                    assert(!child0.has_node(q));
                    assert(q.last() == p.last());
                    assert(joined_path(path@, p) == joined_path(cpv, q));
                }
            }
        }
        r
    } else {
        proof {
            lemma_first_key_index_props(mt_keys(trie.children@), kv[0]);
            assert(first_key_index(mt_keys(trie.children@), kv[0]) < 0) by {
                let r = first_key_index(mt_keys(trie.children@), kv[0]);
                if r >= 0 {
                    assert(mt_keys(trie.children@)[r] == trie.children@[r].0@);
                }
            }
            assert(t0.spec_child(kv[0]) is None);
        }
        let mut node = ModulesTrie {
            path: child_path.clone(),
            basename: elt.clone(),
            cluster_id,
            children: Vec::new(),
        };
        let ghost node0 = node;
        let r = insert(rest, child_path, cluster_id + 1, &mut node);
        let ghost newchild = node;
        let key = elt.clone();
        let ghost cs0 = trie.children@;
        trie.children.push((key, node));
        proof {
            let cs1 = trie.children@;
            assert(cs1 == cs0.push((cs1.last().0, newchild)));
            assert(cs1.last().0@ == kv[0]);
            assert(trie.spec_child(kv[0]) == Some(newchild)) by {
                lemma_first_key_index_mt_push(cs0, cs1, kv[0]);
            }
            assert forall|x: Seq<char>| x != kv[0] implies trie.spec_child(x) == t0.spec_child(
                x,
            ) by {
                lemma_first_key_index_mt_push_other(cs0, cs1, kv[0], x);
            }
            assert forall|p: Seq<Seq<char>>| #[trigger] trie.has_node(p) <==> t0.has_node(p)
                || crate::trie::is_prefix_of(p, kv) by {
                if p.len() == 0 {
                    assert(p =~= kv.subrange(0, 0));
                } else if p[0] == kv[0] {
                    assert(trie.has_node(p) == newchild.has_node(p.drop_first()));
                    assert(!t0.has_node(p));
                    let q = p.drop_first();
                    assert(node0.has_node(q) <==> q.len() == 0) by {
                        if q.len() > 0 {
                            assert(first_key_index(mt_keys(node0.children@), q[0]) == -1);
                        }
                    }
                    assert(q.len() == 0 ==> crate::trie::is_prefix_of(q, kv.drop_first())) by {
                        if q.len() == 0 {
                            assert(q =~= kv.drop_first().subrange(0, 0));
                        }
                    }
                    lemma_prefix_drop_mt(p, kv);
                } else {
                    assert(!crate::trie::is_prefix_of(p, kv)) by {
                        if crate::trie::is_prefix_of(p, kv) {
                            assert(p[0] == kv.subrange(0, p.len() as int)[0]);
                        }
                    }
                }
            }
            assert forall|p: Seq<Seq<char>>|
                crate::trie::is_prefix_of(p, kv) && p.len() > 0 && !t0.has_node(p) implies {
                let nd = #[trigger] trie.node_at(p);
                &&& nd.basename@ == p.last()
                &&& nd.path@ == joined_path(path@, p)
                &&& nd.cluster_id as int == cluster_id + p.len() - 1
            } by {
                assert(p[0] == kv.subrange(0, p.len() as int)[0]);
                assert(trie.node_at(p) == newchild.node_at(p.drop_first()));
                if p.len() == 1 {
                    assert(p.drop_first() =~= Seq::<Seq<char>>::empty());
                    assert(trie.node_at(p) == newchild);
                    assert(newchild.basename == node0.basename);
                    assert(newchild.path == node0.path);
                    assert(newchild.cluster_id == node0.cluster_id);
                    assert(node0.basename@ == kv[0]);
                    assert(node0.path@ == cpv);
                    assert(p.last() == p[0]);
                    assert(joined_path(path@, p) == joined_path(cpv, p.drop_first()));
                } else {
                    let q = p.drop_first();
                    lemma_prefix_drop_mt(p, kv);
                    assert(!node0.has_node(q)) by {
                        assert(first_key_index(mt_keys(node0.children@), q[0]) == -1);
                    }
                    assert(q.last() == p.last());
                    assert(joined_path(path@, p) == joined_path(cpv, q));
                }
            }
        }
        r
    }
}

/// With equal heads, being a prefix is decided by the tails.
proof fn lemma_prefix_drop_mt(p: Seq<Seq<char>>, w: Seq<Seq<char>>)
    requires
        p.len() > 0,
        w.len() > 0,
        p[0] == w[0],
    ensures
        crate::trie::is_prefix_of(p, w) <==> crate::trie::is_prefix_of(
            p.drop_first(),
            w.drop_first(),
        ),
{
    let q = p.drop_first();
    let u = w.drop_first();
    if crate::trie::is_prefix_of(p, w) {
        assert forall|i: int| 0 <= i < q.len() implies q[i] == u.subrange(0, q.len() as int)[i] by {
            assert(q[i] == p[i + 1]);
            assert(p[i + 1] == w.subrange(0, p.len() as int)[i + 1]);
            assert(u.subrange(0, q.len() as int)[i] == w[i + 1]);
        }
        assert(q =~= u.subrange(0, q.len() as int));
    }
    if crate::trie::is_prefix_of(q, u) {
        assert forall|i: int| 0 <= i < p.len() implies p[i] == w.subrange(0, p.len() as int)[i] by {
            if i > 0 {
                assert(p[i] == q[i - 1]);
                assert(q[i - 1] == u.subrange(0, q.len() as int)[i - 1]);
                assert(u.subrange(0, q.len() as int)[i - 1] == w[i]);
            }
        }
        assert(p =~= w.subrange(0, p.len() as int));
    }
}

/// A key pushed at the end is found only when no earlier key
/// matches.
proof fn lemma_first_key_index_mt_push(
    cs0: Seq<(String, ModulesTrie)>,
    cs1: Seq<(String, ModulesTrie)>,
    k: Seq<char>,
)
    requires
        cs1 == cs0.push((cs1.last().0, cs1.last().1)),
        cs1.last().0@ == k,
        forall|j: int| 0 <= j < cs0.len() ==> cs0[j].0@ != k,
    ensures
        first_key_index(mt_keys(cs1), k) == cs0.len(),
{
    lemma_first_key_index_props(mt_keys(cs1), k);
    assert(mt_keys(cs1)[cs0.len() as int] == k);
    let r = first_key_index(mt_keys(cs1), k);
    if r < 0 {
        assert(mt_keys(cs1)[cs0.len() as int] != k);
    } else if r < cs0.len() {
        assert(cs1[r] == cs0[r]);
        assert(mt_keys(cs1)[r] == cs0[r].0@);
    } else if r > cs0.len() {
        assert(mt_keys(cs1)[cs0.len() as int] != k);
    }
}

/// Any other key indexes as before the push.
proof fn lemma_first_key_index_mt_push_other(
    cs0: Seq<(String, ModulesTrie)>,
    cs1: Seq<(String, ModulesTrie)>,
    k: Seq<char>,
    x: Seq<char>,
)
    requires
        cs1 == cs0.push((cs1.last().0, cs1.last().1)),
        cs1.last().0@ == k,
        x != k,
    ensures
        first_key_index(mt_keys(cs1), x) == first_key_index(mt_keys(cs0), x),
        first_key_index(mt_keys(cs0), x) >= 0 ==> cs1[first_key_index(mt_keys(cs0), x)]
            == cs0[first_key_index(mt_keys(cs0), x)],
    decreases cs0.len(),
{
    lemma_first_key_index_props(mt_keys(cs0), x);
    lemma_first_key_index_props(mt_keys(cs1), x);
    let r0 = first_key_index(mt_keys(cs0), x);
    let r1 = first_key_index(mt_keys(cs1), x);
    assert(forall|j: int| 0 <= j < cs0.len() ==> cs1[j] == cs0[j]);
    assert(forall|j: int| 0 <= j < cs0.len() ==> mt_keys(cs1)[j] == mt_keys(cs0)[j]);
    if r0 >= 0 {
        assert(mt_keys(cs1)[r0] == x);
        if r1 < 0 {
            assert(mt_keys(cs1)[r0] != x);
        } else if r1 < r0 {
            assert(mt_keys(cs0)[r1] == x);
        } else if r1 > r0 {
            assert(mt_keys(cs1)[r0] != x);
        }
    } else {
        if r1 >= 0 {
            assert(mt_keys(cs1)[r1] == x);
            if r1 < cs0.len() {
                assert(mt_keys(cs0)[r1] == x);
            } else {
                assert(mt_keys(cs1)[r1] == k);
            }
        }
    }
}

/// The rendering of one display node: a leaf is one labelled vertex;
/// a node with children is a numbered cluster holding its own module
/// vertex and its children's output.
pub open spec fn render_spec(t: ModulesTrie) -> Seq<char>
    decreases t, 1int,
{
    if t.children@.len() == 0 {
        "\""@ + t.path@ + "\"[label=\""@ + t.basename@ + "\"]\n"@
    } else {
        "subgraph cluster_"@ + dec_seq(t.cluster_id as int) + " {\n"@ + "label=\""@ + t.basename@
            + "\"\n"@ + "\""@ + t.path@ + "\"[label=\""@ + t.basename@ + "::mod"@ + "\"]\n"@
            + render_children(t.children@) + "}\n"@
    }
}

/// The concatenated renderings of a list of children.
pub open spec fn render_children(cs: Seq<(String, ModulesTrie)>) -> Seq<char>
    decreases cs, 0int,
{
    if cs.len() == 0 {
        Seq::empty()
    } else {
        render_spec(cs[0].1) + render_children(cs.drop_first())
    }
}

proof fn lemma_render_children_push(cs: Seq<(String, ModulesTrie)>)
    requires
        cs.len() > 0,
    ensures
        render_children(cs) == render_children(cs.drop_last()) + render_spec(cs.last().1),
    decreases cs.len(),
{
    if cs.len() == 1 {
        assert(cs.drop_last() =~= Seq::<(String, ModulesTrie)>::empty());
        assert(cs.drop_first() =~= Seq::<(String, ModulesTrie)>::empty());
        assert(render_children(cs.drop_first()) =~= Seq::<char>::empty());
        assert(render_children(cs.drop_last()) =~= Seq::<char>::empty());
        assert((render_spec(cs[0].1) + Seq::<char>::empty()) =~= render_spec(cs[0].1));
        assert((Seq::<char>::empty() + render_spec(cs.last().1)) =~= render_spec(cs.last().1));
    } else {
        lemma_render_children_push(cs.drop_first());
        assert(cs.drop_first().drop_last() =~= cs.drop_last().drop_first());
        assert(cs.drop_first().last() == cs.last());
        assert(cs.drop_last()[0] == cs[0]);
        assert(cs.drop_last().len() > 0);
        let head = render_spec(cs[0].1);
        let midl = render_children(cs.drop_last().drop_first());
        let tail = render_spec(cs.last().1);
        assert((head + (midl + tail)) =~= ((head + midl) + tail));
    }
}

impl ModulesTrie {
    /// Writes this node's rendering.
    pub fn render(&self) -> (r: String)
        ensures
            r@ == render_spec(*self),
        decreases *self,
    {
        if self.children.len() == 0 {
            let mut r = "\"".to_owned();
            r.append(self.path.as_str());
            r.append("\"[label=\"");
            r.append(self.basename.as_str());
            r.append("\"]\n");
            proof {
                assert(r@ =~= render_spec(*self));
            }
            r
        } else {
            let mut r = "subgraph cluster_".to_owned();
            let num = crate::text::dec_str(self.cluster_id);
            r.append(num.as_str());
            r.append(" {\n");
            r.append("label=\"");
            r.append(self.basename.as_str());
            r.append("\"\n");
            r.append("\"");
            r.append(self.path.as_str());
            r.append("\"[label=\"");
            r.append(self.basename.as_str());
            r.append("::mod");
            r.append("\"]\n");
            let ghost header = r@;
            let ghost cs = self.children@;
            let n = self.children.len();
            let mut i: usize = 0;
            while i < n
                invariant
                    n == self.children@.len(),
                    cs == self.children@,
                    i <= n,
                    r@ == header + render_children(cs.subrange(0, i as int)),
                decreases n - i,
            {
                let piece = self.children[i].1.render();
                r.append(piece.as_str());
                proof {
                    let sub1 = cs.subrange(0, i + 1);
                    assert(sub1.drop_last() =~= cs.subrange(0, i as int));
                    assert(sub1.last() == cs[i as int]);
                    lemma_render_children_push(sub1);
                }
                i += 1;
            }
            r.append("}\n");
            proof {
                assert(cs.subrange(0, n as int) =~= cs);
                assert(r@ =~= render_spec(*self));
            }
            r
        }
    }
}

/// Builds the display tree of every path the flat registry knows,
/// numbering clusters as it walks.
pub fn convert(dependencies_graph: &crate::graph::DependenciesGraph) -> (r: ModulesTrie)
    requires
        forall|i: int|
            0 <= i < dependencies_graph.map@.len() ==> i + 1 + #[trigger] total_len_up_to(
                dependencies_graph.map@,
                i + 1,
            ) <= usize::MAX,
    ensures
        forall|p: Seq<Seq<char>>|
            #[trigger] r.has_node(p) <==> (p.len() == 0 || exists|j: int|
                0 <= j < dependencies_graph.map@.len() && crate::trie::is_prefix_of(
                    p,
                    seq_views(#[trigger] dependencies_graph.map@[j].0@),
                )),
{
    let mut trie = ModulesTrie {
        path: String::new(),
        basename: String::new(),
        cluster_id: 0,
        children: Vec::new(),
    };
    proof {
        assert forall|p: Seq<Seq<char>>| #[trigger] trie.has_node(p) <==> p.len() == 0 by {
            if p.len() > 0 {
                assert(first_key_index(mt_keys(trie.children@), p[0]) == -1);
            }
        }
    }
    let mut cluster_id: usize = 0;
    let n = dependencies_graph.map.len();
    let mut i: usize = 0;
    while i < n
        invariant
            n == dependencies_graph.map@.len(),
            i <= n,
            cluster_id as int <= i + total_len_up_to(dependencies_graph.map@, i as int),
            forall|j: int|
                0 <= j < n ==> j + 1 + #[trigger] total_len_up_to(
                    dependencies_graph.map@,
                    j + 1,
                ) <= usize::MAX,
            forall|p: Seq<Seq<char>>|
                #[trigger] trie.has_node(p) <==> (p.len() == 0 || exists|j: int|
                    0 <= j < i && crate::trie::is_prefix_of(
                        p,
                        seq_views(#[trigger] dependencies_graph.map@[j].0@),
                    )),
        decreases n - i,
    {
        proof {
            lemma_total_len_step(dependencies_graph.map@, i as int);
        }
        let ghost t_pre = trie;
        let elt = &dependencies_graph.map[i].0;
        cluster_id = insert(elt.as_slice(), String::new(), cluster_id + 1, &mut trie);
        proof {
            let kv = seq_views(dependencies_graph.map@[i as int].0@);
            assert forall|p: Seq<Seq<char>>| #[trigger] trie.has_node(p) <==> (p.len() == 0
                || exists|j: int|
                0 <= j < i + 1 && crate::trie::is_prefix_of(
                    p,
                    seq_views(#[trigger] dependencies_graph.map@[j].0@),
                )) by {
                if trie.has_node(p) {
                    if !t_pre.has_node(p) {
                        assert(crate::trie::is_prefix_of(p, kv));
                    }
                } else {
                    if p.len() > 0 && (exists|j: int|
                        0 <= j < i + 1 && crate::trie::is_prefix_of(
                            p,
                            seq_views(dependencies_graph.map@[j].0@),
                        )) {
                        let j = choose|j: int|
                            0 <= j < i + 1 && crate::trie::is_prefix_of(
                                p,
                                seq_views(dependencies_graph.map@[j].0@),
                            );
                        if j < i {
                            assert(t_pre.has_node(p));
                        }
                    }
                }
            }
        }
        i += 1;
    }
    trie
}

/// The summed path lengths of the first `i` registry rows.
pub open spec fn total_len_up_to(m: Seq<(Vec<String>, Vec<Vec<String>>)>, i: int) -> int
    decreases i,
{
    if i <= 0 {
        0
    } else {
        total_len_up_to(m, i - 1) + (if i <= m.len() {
            m[i - 1].0@.len() as int
        } else {
            0
        })
    }
}

proof fn lemma_total_len_step(m: Seq<(Vec<String>, Vec<Vec<String>>)>, i: int)
    requires
        0 <= i < m.len(),
    ensures
        total_len_up_to(m, i + 1) == total_len_up_to(m, i) + m[i].0@.len(),
        total_len_up_to(m, i) >= 0,
    decreases i,
{
    if i > 0 {
        lemma_total_len_step(m, i - 1);
    }
}

} // verus!
