//! The flat, first cut of the pipeline: every unit is a row keyed by
//! its path, dependencies are read line by line, and the output is
//! an unclustered graph with numbered vertices.

use crate::text::{
    dec_seq, join_with, seq_views, split_sub, split_ws, str_eq, strs_eq, dec_str,
};
use vstd::prelude::*;

verus! {

/// The flat registry: the known unit paths, and each unit's declared
/// internal dependencies, both in first-registration order.
pub struct DependenciesGraph {
    pub set: Vec<Vec<String>>,
    pub map: Vec<(Vec<String>, Vec<Vec<String>>)>,
}

/// The views of a list of paths.
pub open spec fn path_views(v: Seq<Vec<String>>) -> Seq<Seq<Seq<char>>> {
    v.map_values(|x: Vec<String>| seq_views(x@))
}

/// Index of the first path of `sv` equal to `k`, or `-1`.
pub open spec fn path_index(sv: Seq<Seq<Seq<char>>>, k: Seq<Seq<char>>) -> int
    decreases sv.len(),
{
    if sv.len() == 0 {
        -1
    } else if sv[0] == k {
        0
    } else {
        let r = path_index(sv.drop_first(), k);
        if r < 0 {
            -1
        } else {
            r + 1
        }
    }
}

pub proof fn lemma_path_index_props(sv: Seq<Seq<Seq<char>>>, k: Seq<Seq<char>>)
    ensures
        path_index(sv, k) >= 0 ==> {
            let r = path_index(sv, k);
            &&& r < sv.len()
            &&& sv[r] == k
            &&& forall|j: int| 0 <= j < r ==> sv[j] != k
        },
        path_index(sv, k) < 0 ==> forall|j: int| 0 <= j < sv.len() ==> sv[j] != k,
    decreases sv.len(),
{
    if sv.len() > 0 && sv[0] != k {
        let rest = sv.drop_first();
        lemma_path_index_props(rest, k);
        let r0 = path_index(rest, k);
        if r0 >= 0 {
            assert(path_index(sv, k) == r0 + 1);
            assert(sv[r0 + 1] == rest[r0]);
            assert forall|j: int| 0 <= j < r0 + 1 implies sv[j] != k by {
                if j > 0 {
                    assert(sv[j] == rest[j - 1]);
                }
            }
        } else {
            assert forall|j: int| 0 <= j < sv.len() implies sv[j] != k by {
                if j > 0 {
                    assert(sv[j] == rest[j - 1]);
                }
            }
        }
    }
}

/// Finds a path among the vector's paths.
fn find_path(v: &Vec<Vec<String>>, k: &Vec<String>) -> (r: Option<usize>)
    ensures
        match r {
            Some(i) => path_index(path_views(v@), seq_views(k@)) == i,
            None => path_index(path_views(v@), seq_views(k@)) < 0,
        },
{
    let ghost sv = path_views(v@);
    let ghost kv = seq_views(k@);
    proof {
        lemma_path_index_props(sv, kv);
    }
    let n = v.len();
    let mut i: usize = 0;
    while i < n
        invariant
            n == v@.len(),
            sv == path_views(v@),
            kv == seq_views(k@),
            i <= n,
            forall|j: int| 0 <= j < i ==> sv[j] != kv,
        decreases n - i,
    {
        if strs_eq(&v[i], k) {
            proof {
                assert(sv[i as int] == kv);
                lemma_path_index_props(sv, kv);
                let r = path_index(sv, kv);
                if r < 0 {
                    assert(sv[i as int] != kv);
                } else if r < i {
                    assert(sv[r] == kv);
                } else if r > i {
                    assert(sv[i as int] != kv);
                }
                assert(r == i);
            }
            return Some(i);
        }
        i += 1;
    }
    proof {
        lemma_path_index_props(sv, kv);
    }
    None
}

/// A line with a trailing carriage return dropped.
pub open spec fn strip_cr(l: Seq<char>) -> Seq<char> {
    if l.len() > 0 && l.last() == '\r' {
        l.drop_last()
    } else {
        l
    }
}

/// Each line stripped of a trailing carriage return.
pub open spec fn strip_all(ps: Seq<Seq<char>>) -> Seq<Seq<char>> {
    ps.map_values(|l: Seq<char>| strip_cr(l))
}

/// The lines of a text, as `str::lines` yields them.
pub open spec fn lines_of(s: Seq<char>) -> Seq<Seq<char>> {
    let ps = split_sub(s, "\n"@);
    let ps2 = if ps.len() > 0 && ps.last().len() == 0 {
        ps.drop_last()
    } else {
        ps
    };
    strip_all(ps2)
}

proof fn lemma_strip_all_push(ps: Seq<Seq<char>>, k: int)
    requires
        0 <= k < ps.len(),
    ensures
        strip_all(ps.subrange(0, k + 1)) == strip_all(ps.subrange(0, k)).push(strip_cr(ps[k])),
{
    let lhs = strip_all(ps.subrange(0, k + 1));
    let rhs = strip_all(ps.subrange(0, k)).push(strip_cr(ps[k]));
    assert forall|i: int| 0 <= i < lhs.len() implies lhs[i] == rhs[i] by {
        assert(lhs[i] == strip_cr(ps.subrange(0, k + 1)[i]));
        if i < k {
            assert(rhs[i] == strip_cr(ps.subrange(0, k)[i]));
            assert(ps.subrange(0, k)[i] == ps[i]);
        }
        assert(ps.subrange(0, k + 1)[i] == ps[i]);
    }
    assert(lhs =~= rhs);
}

/// Splits a text into its lines.
pub fn text_lines(s: &str) -> (r: Vec<String>)
    ensures
        seq_views(r@) == lines_of(s@),
{
    proof {
        reveal_strlit("\n");
    }
    let mut pieces = crate::text::split_str(s, "\n");
    let ghost ps = seq_views(pieces@);
    proof {
        crate::text::lemma_split_sub_nonempty(s@, "\n"@);
    }
    if pieces[pieces.len() - 1].unicode_len() == 0 {
        let ghost p0 = pieces@;
        let _dropped = pieces.pop();
        proof {
            assert(seq_views(pieces@) =~= seq_views(p0).drop_last());
        }
    }
    let ghost ps2 = seq_views(pieces@);
    let n = pieces.len();
    let mut out: Vec<String> = Vec::new();
    let mut i: usize = 0;
    while i < n
        invariant
            n == pieces@.len(),
            ps2 == seq_views(pieces@),
            i <= n,
            seq_views(out@) == strip_all(ps2.subrange(0, i as int)),
        decreases n - i,
    {
        let l = pieces[i].unicode_len();
        let piece = if l > 0 && pieces[i].as_str().get_char(l - 1) == '\r' {
            pieces[i].as_str().substring_char(0, l - 1).to_owned()
        } else {
            pieces[i].clone()
        };
        proof {
            assert(piece@ == strip_cr(ps2[i as int]));
        }
        let ghost o0 = out@;
        out.push(piece);
        proof {
            crate::text::lemma_seq_views_push(o0, strip_cr(ps2[i as int]));
            lemma_strip_all_push(ps2, i as int);
        }
        i += 1;
    }
    proof {
        assert(ps2.subrange(0, n as int) =~= ps2);
    }
    out
}

/// What one line declares: a line whose first word is the import
/// keyword and that has a second word yields that word minus its
/// final character, split at the path separator, provided its first
/// component is the crate name or the crate-root keyword — which is
/// then dropped.
pub open spec fn handle_line_spec(line: Seq<char>, crate_name: Seq<char>) -> Option<
    Seq<Seq<char>>,
> {
    let words = split_ws(line);
    if words.len() >= 2 && words[0] == "use"@ {
        let dep = words[1].drop_last();
        let comps = split_sub(dep, "::"@);
        if comps[0] == crate_name || comps[0] == "crate"@ {
            Some(comps.drop_first())
        } else {
            None
        }
    } else {
        None
    }
}

/// Reads one line's declared internal dependency, if any.
pub fn handle_dependency_line(line: &str, crate_name: &str) -> (r: Option<Vec<String>>)
    ensures
        match r {
            Some(v) => handle_line_spec(line@, crate_name@) == Some(seq_views(v@)),
            None => handle_line_spec(line@, crate_name@) is None,
        },
{
    let words = crate::text::split_whitespace_vec(line);
    if words.len() >= 2 && str_eq(words[0].as_str(), "use") {
        let w1 = &words[1];
        let l = w1.unicode_len();
        proof {
            assert(seq_views(words@)[1] == w1@);
            assert(seq_views(words@) == split_ws(line@));
            lemma_split_ws_words_nonempty(line@, 1);
            assert(w1@.len() > 0);
        }
        let dep = w1.as_str().substring_char(0, l - 1);
        proof {
            assert(dep@ == w1@.drop_last());
            reveal_strlit("::");
        }
        let comps = crate::text::split_str(dep, "::");
        proof {
            crate::text::lemma_split_sub_nonempty(dep@, "::"@);
            assert(seq_views(comps@)[0] == comps@[0]@);
        }
        let first = &comps[0];
        if str_eq(first.as_str(), crate_name) || str_eq(first.as_str(), "crate") {
            let rest = crate::text::clone_strs_from(comps.as_slice(), 1);
            proof {
                assert(seq_views(rest@) =~= seq_views(comps@).drop_first());
            }
            Some(rest)
        } else {
            None
        }
    } else {
        None
    }
}

/// Every word that the whitespace split yields holds at least one
/// character.
proof fn lemma_split_ws_words_nonempty(s: Seq<char>, k: int)
    requires
        0 <= k < split_ws(s).len(),
    ensures
        split_ws(s)[k].len() > 0,
{
    lemma_words_from_nonempty(s, 0, k);
}

proof fn lemma_words_from_nonempty(s: Seq<char>, i: int, k: int)
    requires
        0 <= k < crate::text::words_from(s, i).len(),
    ensures
        crate::text::words_from(s, i)[k].len() > 0,
    decreases s.len() - i,
{
    if 0 <= i < s.len() {
        let a = crate::text::skip_ws_from(s, i);
        crate::text::lemma_skip_ws_from_props(s, i);
        if a < s.len() {
            let b = crate::text::word_end_from(s, a);
            crate::text::lemma_word_end_from_props(s, a);
            assert(b > a) by {
                if b == a {
                    assert(!crate::text::is_ws(s[a]));
                }
            }
            if k == 0 {
                assert(crate::text::words_from(s, i)[0] == s.subrange(a, b));
            } else {
                lemma_words_from_nonempty(s, b, k - 1);
                assert(crate::text::words_from(s, i)[k] == crate::text::words_from(s, b)[k - 1]);
            }
        }
    }
}

/// The declared internal dependencies of the lines from index `i`
/// on.
pub open spec fn deps_from_lines(
    ls: Seq<Seq<char>>,
    cn: Seq<char>,
    i: int,
) -> Seq<Seq<Seq<char>>>
    decreases ls.len() - i,
{
    if i < 0 || i >= ls.len() {
        Seq::empty()
    } else {
        (match handle_line_spec(ls[i], cn) {
            Some(d) => seq![d],
            None => Seq::empty(),
        }) + deps_from_lines(ls, cn, i + 1)
    }
}

/// The declared internal dependencies of a whole unit text.
pub open spec fn unit_deps(contents: Seq<char>, cn: Seq<char>) -> Seq<Seq<Seq<char>>> {
    deps_from_lines(lines_of(contents), cn, 0)
}

/// Collects a unit text's declared internal dependencies.
pub fn read_unit_deps(contents: &str, crate_name: &str) -> (r: Vec<Vec<String>>)
    ensures
        path_views(r@) == unit_deps(contents@, crate_name@),
{
    let lines = text_lines(contents);
    let ghost lv = seq_views(lines@);
    let n = lines.len();
    let mut out: Vec<Vec<String>> = Vec::new();
    let mut i: usize = 0;
    while i < n
        invariant
            n == lines@.len(),
            lv == seq_views(lines@),
            i <= n,
            deps_from_lines(lv, crate_name@, 0) == path_views(out@) + deps_from_lines(
                lv,
                crate_name@,
                i as int,
            ),
        decreases n - i,
    {
        match handle_dependency_line(lines[i].as_str(), crate_name) {
            Some(d) => {
                let ghost o0 = out@;
                out.push(d);
                proof {
                    lemma_path_views_push(o0, d);
                    assert(path_views(o0) + deps_from_lines(lv, crate_name@, i as int)
                        =~= path_views(out@) + deps_from_lines(lv, crate_name@, i + 1));
                }
            },
            None => {
                proof {
                    assert(deps_from_lines(lv, crate_name@, i as int) == deps_from_lines(
                        lv,
                        crate_name@,
                        i + 1,
                    ));
                }
            },
        }
        i += 1;
    }
    proof {
        assert(deps_from_lines(lv, crate_name@, n as int) =~= Seq::<Seq<Seq<char>>>::empty());
        assert(path_views(out@) + Seq::<Seq<Seq<char>>>::empty() =~= path_views(out@));
    }
    out
}

proof fn lemma_path_views_push(v: Seq<Vec<String>>, x: Vec<String>)
    ensures
        path_views(v.push(x)) == path_views(v).push(seq_views(x@)),
{
    let lhs = path_views(v.push(x));
    let rhs = path_views(v).push(seq_views(x@));
    assert forall|i: int| 0 <= i < lhs.len() implies lhs[i] == rhs[i] by {
        assert(lhs[i] == seq_views(v.push(x)[i]@));
        if i < v.len() {
            assert(v.push(x)[i] == v[i]);
            assert(rhs[i] == path_views(v)[i]);
        } else {
            assert(v.push(x)[i] == x);
        }
    }
    assert(lhs =~= rhs);
}

impl DependenciesGraph {
    /// An empty registry.
    pub fn new() -> (r: Self)
        ensures
            r.set@.len() == 0,
            r.map@.len() == 0,
    {
        DependenciesGraph { set: Vec::new(), map: Vec::new() }
    }

    /// Registers one unit: its path joins the known paths once, and
    /// its declared dependencies are stored under it, a re-registered
    /// path being silently overwritten.
    pub fn register_unit(&mut self, components: Vec<String>, contents: &str, crate_name: &str)
        ensures
            ({
                let kv = seq_views(components@);
                let sv0 = path_views(old(self).set@);
                &&& path_views(final(self).set@) == if path_index(sv0, kv) >= 0 {
                    sv0
                } else {
                    sv0.push(kv)
                }
                &&& final(self).map@.len() as int == if path_index(
                    path_views(map_keys(old(self).map@)),
                    kv,
                ) >= 0 {
                    old(self).map@.len() as int
                } else {
                    (old(self).map@.len() + 1) as int
                }
                &&& map_model(final(self).map@) == ({
                    let m0 = map_model(old(self).map@);
                    let idx = path_index(path_views(map_keys(old(self).map@)), kv);
                    let entry = (kv, unit_deps(contents@, crate_name@));
                    if idx >= 0 {
                        m0.update(idx, entry)
                    } else {
                        m0.push(entry)
                    }
                })
            }),
    {
        let ghost kv = seq_views(components@);
        let deps = read_unit_deps(contents, crate_name);
        match find_path(&self.set, &components) {
            Some(_) => {},
            None => {
                let c2 = clone_path(&components);
                let ghost s0 = self.set@;
                self.set.push(c2);
                proof {
                    lemma_path_views_push(s0, old(self).set@[s0.len() - 1]);
                    assert(path_views(self.set@) =~= path_views(s0).push(kv)) by {
                        assert forall|i: int| 0 <= i < path_views(self.set@).len() implies
                            path_views(self.set@)[i] == path_views(s0).push(kv)[i] by {
                            if i < s0.len() {
                                assert(self.set@[i] == s0[i]);
                            } else {
                                assert(seq_views(self.set@[i]@) == kv);
                            }
                        }
                    }
                }
            },
        }
        let keys = map_key_vec(&self.map);
        match find_path(&keys, &components) {
            Some(idx) => {
                let ghost m0 = self.map@;
                proof {
                    lemma_path_index_props(path_views(map_keys(m0)), kv);
                    assert(path_views(map_keys(m0)).len() == m0.len());
                }
                let _replaced = self.map.remove(idx);
                self.map.insert(idx, (components, deps));
                proof {
                    assert(self.map@ =~= m0.update(idx as int, self.map@[idx as int]));
                    lemma_map_model_update(m0, idx as int, kv, path_views(deps@));
                }
            },
            None => {
                let ghost m0 = self.map@;
                self.map.push((components, deps));
                proof {
                    lemma_map_model_push(m0, kv, path_views(deps@));
                }
            },
        }
    }
}

/// The keys of the stored map rows.
pub open spec fn map_keys(m: Seq<(Vec<String>, Vec<Vec<String>>)>) -> Seq<Vec<String>> {
    m.map_values(|e: (Vec<String>, Vec<Vec<String>>)| e.0)
}

/// The stored map rows, as their contents.
pub open spec fn map_model(m: Seq<(Vec<String>, Vec<Vec<String>>)>) -> Seq<
    (Seq<Seq<char>>, Seq<Seq<Seq<char>>>),
> {
    m.map_values(
        |e: (Vec<String>, Vec<Vec<String>>)| (seq_views(e.0@), path_views(e.1@)),
    )
}

/// Clones a path.
fn clone_path(p: &Vec<String>) -> (r: Vec<String>)
    ensures
        seq_views(r@) == seq_views(p@),
{
    let r = p.clone();
    proof {
        assert(seq_views(r@) =~= seq_views(p@));
    }
    r
}

/// Clones the keys of the map rows.
fn map_key_vec(m: &Vec<(Vec<String>, Vec<Vec<String>>)>) -> (r: Vec<Vec<String>>)
    ensures
        path_views(r@) == path_views(map_keys(m@)),
{
    let n = m.len();
    let mut r: Vec<Vec<String>> = Vec::new();
    let mut i: usize = 0;
    while i < n
        invariant
            n == m@.len(),
            i <= n,
            path_views(r@) == path_views(map_keys(m@.subrange(0, i as int))),
        decreases n - i,
    {
        let k = clone_path(&m[i].0);
        let ghost r0 = r@;
        r.push(k);
        proof {
            lemma_path_views_push(r0, r@[r0.len() as int]);
            assert(path_views(r@) =~= path_views(map_keys(m@.subrange(0, i + 1)))) by {
                assert forall|j: int| 0 <= j < path_views(r@).len() implies path_views(r@)[j]
                    == path_views(map_keys(m@.subrange(0, i + 1)))[j] by {
                    if j < r0.len() {
                        assert(r@[j] == r0[j]);
                        assert(m@.subrange(0, i + 1)[j] == m@.subrange(0, i as int)[j]);
                    } else {
                        assert(m@.subrange(0, i + 1)[j] == m@[j]);
                    }
                }
            }
        }
        i += 1;
    }
    proof {
        assert(m@.subrange(0, n as int) =~= m@);
    }
    r
}

proof fn lemma_map_model_update(
    m: Seq<(Vec<String>, Vec<Vec<String>>)>,
    idx: int,
    kv: Seq<Seq<char>>,
    dv: Seq<Seq<Seq<char>>>,
)
    requires
        0 <= idx < m.len(),
    ensures
        forall|e: (Vec<String>, Vec<Vec<String>>)|
            seq_views(e.0@) == kv && path_views(e.1@) == dv ==> map_model(m.update(idx, e))
                == map_model(m).update(idx, (kv, dv)),
{
    assert forall|e: (Vec<String>, Vec<Vec<String>>)|
        seq_views(e.0@) == kv && path_views(e.1@) == dv implies map_model(m.update(idx, e))
        == map_model(m).update(idx, (kv, dv)) by {
        let lhs = map_model(m.update(idx, e));
        let rhs = map_model(m).update(idx, (kv, dv));
        assert forall|i: int| 0 <= i < lhs.len() implies lhs[i] == rhs[i] by {
            if i == idx {
                assert(m.update(idx, e)[i] == e);
            } else {
                assert(m.update(idx, e)[i] == m[i]);
                assert(rhs[i] == map_model(m)[i]);
            }
        }
        assert(lhs =~= rhs);
    }
}

proof fn lemma_map_model_push(
    m: Seq<(Vec<String>, Vec<Vec<String>>)>,
    kv: Seq<Seq<char>>,
    dv: Seq<Seq<Seq<char>>>,
)
    ensures
        forall|e: (Vec<String>, Vec<Vec<String>>)|
            seq_views(e.0@) == kv && path_views(e.1@) == dv ==> map_model(m.push(e)) == map_model(
                m,
            ).push((kv, dv)),
{
    assert forall|e: (Vec<String>, Vec<Vec<String>>)|
        seq_views(e.0@) == kv && path_views(e.1@) == dv implies map_model(m.push(e)) == map_model(
        m,
    ).push((kv, dv)) by {
        let lhs = map_model(m.push(e));
        let rhs = map_model(m).push((kv, dv));
        assert forall|i: int| 0 <= i < lhs.len() implies lhs[i] == rhs[i] by {
            if i < m.len() {
                assert(m.push(e)[i] == m[i]);
                assert(rhs[i] == map_model(m)[i]);
            } else {
                assert(m.push(e)[i] == e);
            }
        }
        assert(lhs =~= rhs);
    }
}

/// The numbered vertex lines for the known paths, from index `i` on.
pub open spec fn vertex_lines(sv: Seq<Seq<Seq<char>>>, i: int) -> Seq<Seq<char>>
    decreases sv.len() - i,
{
    if i < 0 || i >= sv.len() {
        Seq::empty()
    } else {
        seq!["u"@ + dec_seq(i) + "[label=\""@ + join_with(sv[i], "::"@) + "\"]"@] + vertex_lines(
            sv,
            i + 1,
        )
    }
}

/// The edge lines of one unit's dependency list, from index `i` on:
/// one line per dependency that names a known path.
pub open spec fn edge_lines(
    sv: Seq<Seq<Seq<char>>>,
    kidx: int,
    ds: Seq<Seq<Seq<char>>>,
    i: int,
) -> Seq<Seq<char>>
    decreases ds.len() - i,
{
    if i < 0 || i >= ds.len() {
        Seq::empty()
    } else {
        (if path_index(sv, ds[i]) >= 0 {
            seq!["u"@ + dec_seq(kidx) + " -> u"@ + dec_seq(path_index(sv, ds[i]))]
        } else {
            Seq::empty()
        }) + edge_lines(sv, kidx, ds, i + 1)
    }
}

/// The non-empty edge groups of the map rows, from row `j` on.
pub open spec fn edge_groups(
    sv: Seq<Seq<Seq<char>>>,
    m: Seq<(Seq<Seq<char>>, Seq<Seq<Seq<char>>>)>,
    j: int,
) -> Seq<Seq<char>>
    decreases m.len() - j,
{
    if j < 0 || j >= m.len() {
        Seq::empty()
    } else {
        let g = join_with(edge_lines(sv, path_index(sv, m[j].0), m[j].1, 0), "\n"@);
        (if g.len() > 0 {
            seq![g]
        } else {
            Seq::empty()
        }) + edge_groups(sv, m, j + 1)
    }
}

/// The whole flat document: the opening declaration, the numbered
/// vertex lines, the edge lines and the closing brace.
pub open spec fn format_spec(
    sv: Seq<Seq<Seq<char>>>,
    m: Seq<(Seq<Seq<char>>, Seq<Seq<Seq<char>>>)>,
) -> Seq<char> {
    "digraph G {\n\n"@ + join_with(vertex_lines(sv, 0), "\n"@) + "\n"@ + join_with(
        edge_groups(sv, m, 0),
        "\n"@,
    ) + "\n}\n"@
}

/// Renders the flat registry: numbered vertices for every known
/// path, and an edge for every dependency that names one.
pub fn format_graph(graph: DependenciesGraph) -> (r: String)
    requires
        forall|j: int|
            0 <= j < graph.map@.len() ==> path_index(
                path_views(graph.set@),
                #[trigger] map_model(graph.map@)[j].0,
            ) >= 0,
    ensures
        r@ == format_spec(path_views(graph.set@), map_model(graph.map@)),
{
    let ghost sv = path_views(graph.set@);
    let ghost mm = map_model(graph.map@);
    let n = graph.set.len();
    let mut vlines: Vec<String> = Vec::new();
    let mut i: usize = 0;
    while i < n
        invariant
            n == graph.set@.len(),
            sv == path_views(graph.set@),
            i <= n,
            vertex_lines(sv, 0) == seq_views(vlines@) + vertex_lines(sv, i as int),
        decreases n - i,
    {
        let mut line = "u".to_owned();
        let num = dec_str(i);
        line.append(num.as_str());
        line.append("[label=\"");
        let joined = crate::text::join_strs(&graph.set[i], "::");
        line.append(joined.as_str());
        line.append("\"]");
        proof {
            assert(line@ == "u"@ + dec_seq(i as int) + "[label=\""@ + join_with(
                sv[i as int],
                "::"@,
            ) + "\"]"@) by {
                assert(seq_views(graph.set@[i as int]@) == sv[i as int]);
                assert(line@ =~= "u"@ + dec_seq(i as int) + "[label=\""@ + join_with(
                    sv[i as int],
                    "::"@,
                ) + "\"]"@);
            }
        }
        let ghost v0 = vlines@;
        vlines.push(line);
        proof {
            crate::text::lemma_seq_views_push(v0, vlines@[v0.len() as int]@);
            assert(seq_views(v0) + vertex_lines(sv, i as int) =~= seq_views(vlines@)
                + vertex_lines(sv, i + 1));
        }
        i += 1;
    }
    proof {
        assert(vertex_lines(sv, n as int) =~= Seq::<Seq<char>>::empty());
        assert(seq_views(vlines@) + Seq::<Seq<char>>::empty() =~= seq_views(vlines@));
    }
    let nm = graph.map.len();
    let mut groups: Vec<String> = Vec::new();
    let mut j: usize = 0;
    while j < nm
        invariant
            nm == graph.map@.len(),
            sv == path_views(graph.set@),
            mm == map_model(graph.map@),
            mm.len() == nm,
            forall|jj: int| 0 <= jj < mm.len() ==> path_index(sv, #[trigger] mm[jj].0) >= 0,
            j <= nm,
            edge_groups(sv, mm, 0) == seq_views(groups@) + edge_groups(sv, mm, j as int),
        decreases nm - j,
    {
        let kidx = match find_path(&graph.set, &graph.map[j].0) {
            Some(x) => x,
            None => {
                // every stored key names a known path, so the search
                // cannot come back empty
                proof {
                    assert(seq_views(graph.map@[j as int].0@) == mm[j as int].0);
                    assert(false);
                }
                0
            },
        };
        proof {
            assert(seq_views(graph.map@[j as int].0@) == mm[j as int].0);
            assert(kidx as int == path_index(sv, mm[j as int].0));
        }
        let deps = &graph.map[j].1;
        let ghost dv = path_views(deps@);
        proof {
            assert(dv == mm[j as int].1);
        }
        let nd = deps.len();
        let mut elines: Vec<String> = Vec::new();
        let mut d: usize = 0;
        while d < nd
            invariant
                nd == deps@.len(),
                dv == path_views(deps@),
                sv == path_views(graph.set@),
                kidx as int == path_index(sv, mm[j as int].0),
                j < graph.map@.len(),
                mm == map_model(graph.map@),
                dv == mm[j as int].1,
                d <= nd,
                edge_lines(sv, path_index(sv, mm[j as int].0), dv, 0) == seq_views(elines@)
                    + edge_lines(sv, path_index(sv, mm[j as int].0), dv, d as int),
            decreases nd - d,
        {
            match find_path(&graph.set, &deps[d]) {
                Some(vidx) => {
                    proof {
                        assert(seq_views(deps@[d as int]@) == dv[d as int]);
                    }
                    let mut line = "u".to_owned();
                    proof {
                        assert(path_index(sv, dv[d as int]) >= 0);
                    }
                    let knum = dec_str(kidx);
                    line.append(knum.as_str());
                    line.append(" -> u");
                    let vnum = dec_str(vidx);
                    line.append(vnum.as_str());
                    proof {
                        assert(line@ =~= "u"@ + dec_seq(path_index(sv, mm[j as int].0)) + " -> u"@
                            + dec_seq(path_index(sv, dv[d as int])));
                    }
                    let ghost e0 = elines@;
                    elines.push(line);
                    proof {
                        crate::text::lemma_seq_views_push(e0, elines@[e0.len() as int]@);
                        assert(seq_views(e0) + edge_lines(
                            sv,
                            path_index(sv, mm[j as int].0),
                            dv,
                            d as int,
                        ) =~= seq_views(elines@) + edge_lines(
                            sv,
                            path_index(sv, mm[j as int].0),
                            dv,
                            d + 1,
                        ));
                    }
                },
                None => {
                    proof {
                        assert(seq_views(deps@[d as int]@) == dv[d as int]);
                        assert(edge_lines(sv, path_index(sv, mm[j as int].0), dv, d as int)
                            == edge_lines(sv, path_index(sv, mm[j as int].0), dv, d + 1));
                    }
                },
            }
            d += 1;
        }
        proof {
            assert(edge_lines(sv, path_index(sv, mm[j as int].0), dv, nd as int) =~= Seq::<
                Seq<char>,
            >::empty());
            assert(seq_views(elines@) + Seq::<Seq<char>>::empty() =~= seq_views(elines@));
        }
        let group = crate::text::join_strs(&elines, "\n");
        let ghost g0 = groups@;
        let keep = group.unicode_len() > 0;
        if keep {
            groups.push(group);
        }
        proof {
            if keep {
                crate::text::lemma_seq_views_push(g0, groups@[g0.len() as int]@);
                assert(seq_views(g0) + edge_groups(sv, mm, j as int) =~= seq_views(groups@)
                    + edge_groups(sv, mm, j + 1));
            } else {
                assert(seq_views(g0) + edge_groups(sv, mm, j as int) =~= seq_views(groups@)
                    + edge_groups(sv, mm, j + 1));
            }
        }
        j += 1;
    }
    proof {
        assert(edge_groups(sv, mm, nm as int) =~= Seq::<Seq<char>>::empty());
        assert(seq_views(groups@) + Seq::<Seq<char>>::empty() =~= seq_views(groups@));
    }
    let mut r = "digraph G {\n\n".to_owned();
    let verts = crate::text::join_strs(&vlines, "\n");
    r.append(verts.as_str());
    r.append("\n");
    let arcs = crate::text::join_strs(&groups, "\n");
    r.append(arcs.as_str());
    r.append("\n}\n");
    proof {
        assert(r@ =~= format_spec(sv, mm));
    }
    r
}

} // verus!
