//! The module registry's prefix tree: every discovered module path is
//! inserted with its dependency list, and lookups return the longest
//! known prefix of a query path together with the value stored there.

use vstd::prelude::*;

verus! {

/// Result of a three-way key comparison.
pub enum KeyOrder {
    Less,
    Equal,
    Greater,
}

/// A key usable in the prefix tree: its views carry a strict total
/// order that an executable comparison decides.
pub trait PathKey: View + Sized {
    /// The strict order on key views that the tree is sorted by.
    spec fn key_lt(a: Self::V, b: Self::V) -> bool;

    /// `key_lt` is a strict total order.
    proof fn lemma_key_order(a: Self::V, b: Self::V, c: Self::V)
        ensures
            Self::key_lt(a, b) ==> !Self::key_lt(b, a) && a != b,
            Self::key_lt(a, b) || Self::key_lt(b, a) || a == b,
            Self::key_lt(a, b) && Self::key_lt(b, c) ==> Self::key_lt(a, c),
    ;

    /// Decides how the views of two keys are ordered.
    fn compare(&self, other: &Self) -> (o: KeyOrder)
        ensures
            match o {
                KeyOrder::Less => Self::key_lt(self@, other@),
                KeyOrder::Equal => self@ == other@,
                KeyOrder::Greater => Self::key_lt(other@, self@),
            },
    ;
}

impl PathKey for String {
    open spec fn key_lt(a: Seq<char>, b: Seq<char>) -> bool {
        crate::text::str_lt(a, b)
    }

    proof fn lemma_key_order(a: Seq<char>, b: Seq<char>, c: Seq<char>) {
        crate::text::lemma_str_lt_trichotomy(a, b);
        if crate::text::str_lt(a, b) && crate::text::str_lt(b, c) {
            crate::text::lemma_str_lt_transitive(a, b, c);
        }
    }

    fn compare(&self, other: &Self) -> (o: KeyOrder) {
        if crate::text::str_eq(self.as_str(), other.as_str()) {
            KeyOrder::Equal
        } else if crate::text::str_lt_exec(self.as_str(), other.as_str()) {
            KeyOrder::Less
        } else {
            proof {
                crate::text::lemma_str_lt_trichotomy(self@, other@);
            }
            KeyOrder::Greater
        }
    }
}

impl PathKey for u64 {
    open spec fn key_lt(a: u64, b: u64) -> bool {
        a < b
    }

    proof fn lemma_key_order(a: u64, b: u64, c: u64) {
    }

    fn compare(&self, other: &Self) -> (o: KeyOrder) {
        if self == other {
            KeyOrder::Equal
        } else if *self < *other {
            KeyOrder::Less
        } else {
            KeyOrder::Greater
        }
    }
}

/// The views of a sequence of keys.
pub open spec fn key_views<K: View>(q: Seq<K>) -> Seq<<K as View>::V> {
    q.map_values(|k: K| k@)
}

/// A prefix tree.  Each node holds an optional value and its child
/// nodes, kept sorted by key so that traversal order is determined
/// by the keys alone, never by insertion order.
#[derive(Debug, PartialEq)]
pub struct Trie<K, V> {
    pub value: Option<V>,
    pub children: Vec<(K, Trie<K, V>)>,
}

/// Index of the first child whose key view is `k`, or `-1`.
pub open spec fn key_index<K: View, V>(cs: Seq<(K, Trie<K, V>)>, k: <K as View>::V) -> int
    decreases cs.len(),
{
    if cs.len() == 0 {
        -1
    } else if cs[0].0@ == k {
        0
    } else {
        let r = key_index(cs.drop_first(), k);
        if r < 0 {
            -1
        } else {
            r + 1
        }
    }
}

pub proof fn lemma_key_index_props<K: View, V>(cs: Seq<(K, Trie<K, V>)>, k: <K as View>::V)
    ensures
        key_index(cs, k) >= 0 ==> {
            let r = key_index(cs, k);
            &&& r < cs.len()
            &&& cs[r].0@ == k
            &&& forall|j: int| 0 <= j < r ==> cs[j].0@ != k
        },
        key_index(cs, k) < 0 ==> forall|j: int| 0 <= j < cs.len() ==> cs[j].0@ != k,
    decreases cs.len(),
{
    if cs.len() > 0 && cs[0].0@ != k {
        let rest = cs.drop_first();
        lemma_key_index_props(rest, k);
        let r0 = key_index(rest, k);
        if r0 >= 0 {
            assert(key_index(cs, k) == r0 + 1);
            assert(cs[r0 + 1] == rest[r0]);
            assert forall|j: int| 0 <= j < r0 + 1 implies cs[j].0@ != k by {
                if j > 0 {
                    assert(cs[j] == rest[j - 1]);
                }
            }
        } else {
            assert forall|j: int| 0 <= j < cs.len() implies cs[j].0@ != k by {
                if j > 0 {
                    assert(cs[j] == rest[j - 1]);
                }
            }
        }
    }
}

impl<K: View, V> Trie<K, V> {
    /// The walk along `q` matches at most all of `q`.
    pub proof fn lemma_prefix_len_le(self, q: Seq<<K as View>::V>)
        ensures
            self.prefix_len(q) <= q.len(),
        decreases q.len(),
    {
        if q.len() > 0 {
            match self.spec_child(q[0]) {
                None => {},
                Some(c) => {
                    c.lemma_prefix_len_le(q.drop_first());
                },
            }
        }
    }

    /// The child reached by one key view, if any.
    pub open spec fn spec_child(self, k: <K as View>::V) -> Option<Trie<K, V>> {
        let i = key_index(self.children@, k);
        if i < 0 {
            None
        } else {
            Some(self.children@[i].1)
        }
    }

    /// How many leading components of `q` can be walked from this
    /// node along existing children.
    pub open spec fn prefix_len(self, q: Seq<<K as View>::V>) -> nat
        decreases q.len(),
    {
        if q.len() == 0 {
            0
        } else {
            match self.spec_child(q[0]) {
                None => 0,
                Some(c) => (1 + c.prefix_len(q.drop_first())) as nat,
            }
        }
    }

    /// The node where the walk along `q` stops.
    pub open spec fn node_at(self, q: Seq<<K as View>::V>) -> Trie<K, V>
        decreases q.len(),
    {
        if q.len() == 0 {
            self
        } else {
            match self.spec_child(q[0]) {
                None => self,
                Some(c) => c.node_at(q.drop_first()),
            }
        }
    }

    /// The value stored at exactly the path `q`, if that whole path
    /// exists and its final node holds one.
    pub open spec fn value_at(self, q: Seq<<K as View>::V>) -> Option<V>
        decreases q.len(),
    {
        if q.len() == 0 {
            self.value
        } else {
            match self.spec_child(q[0]) {
                None => None,
                Some(c) => c.value_at(q.drop_first()),
            }
        }
    }

    /// Whether the whole path `q` exists as a chain of nodes.
    pub open spec fn has_node(self, q: Seq<<K as View>::V>) -> bool
        decreases q.len(),
    {
        if q.len() == 0 {
            true
        } else {
            match self.spec_child(q[0]) {
                None => false,
                Some(c) => c.has_node(q.drop_first()),
            }
        }
    }
}

/// The largest depth among a list of child nodes.
pub open spec fn children_depth<K, V>(cs: Seq<(K, Trie<K, V>)>) -> nat
    decreases cs,
{
    if cs.len() == 0 {
        0
    } else {
        let d0 = cs[0].1.depth();
        let dr = children_depth(cs.drop_first());
        if d0 > dr {
            d0
        } else {
            dr
        }
    }
}

pub proof fn lemma_children_depth<K, V>(cs: Seq<(K, Trie<K, V>)>, i: int)
    requires
        0 <= i < cs.len(),
    ensures
        cs[i].1.depth() <= children_depth(cs),
    decreases cs.len(),
{
    if i > 0 {
        lemma_children_depth(cs.drop_first(), i - 1);
        assert(cs.drop_first()[i - 1] == cs[i]);
    }
}

impl<K, V> Trie<K, V> {
    /// The number of node levels of the tree: one for this node plus
    /// its deepest child chain.
    pub open spec fn depth(self) -> nat
        decreases self,
    {
        1 + children_depth(self.children@)
    }
}

/// Whether `p` is a (not necessarily proper) prefix of `w`.
pub open spec fn is_prefix_of<T>(p: Seq<T>, w: Seq<T>) -> bool {
    p.len() <= w.len() && p == w.subrange(0, p.len() as int)
}

/// Sequences with equal heads and equal tails are equal.
proof fn lemma_cons_eq<T>(p: Seq<T>, w: Seq<T>)
    requires
        p.len() > 0,
        w.len() > 0,
        p[0] == w[0],
        p.drop_first() == w.drop_first(),
    ensures
        p == w,
{
    assert(p.drop_first() =~= p.subrange(1, p.len() as int));
    assert(w.drop_first() =~= w.subrange(1, w.len() as int));
    assert(p.drop_first().len() == p.len() - 1);
    assert(w.drop_first().len() == w.len() - 1);
    assert(p.len() == w.len());
    assert forall|i: int| 0 <= i < p.len() implies p[i] == w[i] by {
        if i > 0 {
            assert(p[i] == p.drop_first()[i - 1]);
            assert(w[i] == w.drop_first()[i - 1]);
        }
    }
    assert(p =~= w);
}

/// With equal heads, being a prefix is decided by the tails.
proof fn lemma_prefix_drop<T>(p: Seq<T>, w: Seq<T>)
    requires
        p.len() > 0,
        w.len() > 0,
        p[0] == w[0],
    ensures
        is_prefix_of(p, w) <==> is_prefix_of(p.drop_first(), w.drop_first()),
{
    let q = p.drop_first();
    let u = w.drop_first();
    if is_prefix_of(p, w) {
        assert forall|i: int| 0 <= i < q.len() implies q[i] == u.subrange(0, q.len() as int)[i] by {
            assert(q[i] == p[i + 1]);
            assert(p[i + 1] == w.subrange(0, p.len() as int)[i + 1]);
            assert(u.subrange(0, q.len() as int)[i] == w[i + 1]);
        }
        assert(q =~= u.subrange(0, q.len() as int));
    }
    if is_prefix_of(q, u) {
        assert forall|i: int| 0 <= i < p.len() implies p[i] == w.subrange(0, p.len() as int)[i] by {
            if i > 0 {
                assert(p[i] == q[i - 1]);
                assert(q[i - 1] == u.subrange(0, q.len() as int)[i - 1]);
                assert(u.subrange(0, q.len() as int)[i - 1] == w[i]);
            }
        }
        assert(p =~= w.subrange(0, p.len() as int));
    }
}

/// Two child lists with the same keys in the same places index alike.
proof fn lemma_key_index_same_keys<K: View, V>(
    cs1: Seq<(K, Trie<K, V>)>,
    cs2: Seq<(K, Trie<K, V>)>,
    x: <K as View>::V,
)
    requires
        cs1.len() == cs2.len(),
        forall|i: int| 0 <= i < cs1.len() ==> cs1[i].0@ == cs2[i].0@,
    ensures
        key_index(cs1, x) == key_index(cs2, x),
    decreases cs1.len(),
{
    if cs1.len() > 0 && cs1[0].0@ != x {
        lemma_key_index_same_keys(cs1.drop_first(), cs2.drop_first(), x);
        assert(forall|i: int| 0 <= i < cs1.len() - 1 ==> cs1.drop_first()[i] == cs1[i + 1]);
        assert(forall|i: int| 0 <= i < cs2.len() - 1 ==> cs2.drop_first()[i] == cs2[i + 1]);
    }
}

/// Inserting a pair with a different key moves an indexed child but
/// keeps it the same pair.
proof fn lemma_key_index_insert<K: View, V>(
    cs: Seq<(K, Trie<K, V>)>,
    pos: int,
    pair: (K, Trie<K, V>),
    x: <K as View>::V,
)
    requires
        0 <= pos <= cs.len(),
        pair.0@ != x,
    ensures
        key_index(cs, x) < 0 ==> key_index(cs.insert(pos, pair), x) < 0,
        key_index(cs, x) >= 0 ==> {
            let r2 = key_index(cs.insert(pos, pair), x);
            &&& r2 >= 0
            &&& 0 <= r2 < cs.insert(pos, pair).len()
            &&& cs.insert(pos, pair)[r2] == cs[key_index(cs, x)]
        },
    decreases cs.len(),
{
    let new = cs.insert(pos, pair);
    lemma_key_index_props(cs, x);
    if pos == 0 {
        assert(new[0] == pair);
        assert(new.drop_first() =~= cs);
        let r1 = key_index(cs, x);
        if r1 >= 0 {
            assert(key_index(new, x) == r1 + 1);
            assert(new[r1 + 1] == cs[r1]);
        }
    } else {
        assert(new[0] == cs[0]);
        if cs[0].0@ == x {
            assert(key_index(cs, x) == 0);
            assert(key_index(new, x) == 0);
        } else {
            lemma_key_index_insert(cs.drop_first(), pos - 1, pair, x);
            assert(new.drop_first() =~= cs.drop_first().insert(pos - 1, pair));
            let r1 = key_index(cs, x);
            let r1d = key_index(cs.drop_first(), x);
            if r1 >= 0 {
                assert(r1 == r1d + 1);
                let r2d = key_index(cs.drop_first().insert(pos - 1, pair), x);
                assert(key_index(new, x) == r2d + 1);
                assert(new[r2d + 1] == new.drop_first()[r2d]);
                assert(cs[r1] == cs.drop_first()[r1d]);
            }
        }
    }
}

impl<K: PathKey, V> Trie<K, V> {
    /// Finds where `key` stands, or would stand, among the sorted
    /// children: the first position not below it, and whether the
    /// child there carries exactly `key`'s view.
    fn find_child_pos(children: &Vec<(K, Trie<K, V>)>, key: &K) -> (r: (usize, bool))
        requires
            forall|i: int, j: int|
                0 <= i < j < children@.len() ==> K::key_lt(children@[i].0@, children@[j].0@),
        ensures
            r.0 <= children@.len(),
            forall|j: int| 0 <= j < r.0 ==> K::key_lt(children@[j].0@, key@),
            r.1 ==> r.0 < children@.len() && children@[r.0 as int].0@ == key@,
            !r.1 ==> (r.0 == children@.len() || K::key_lt(key@, children@[r.0 as int].0@)),
    {
        let n = children.len();
        let mut i: usize = 0;
        while i < n
            invariant
                n == children@.len(),
                i <= n,
                forall|j: int| 0 <= j < i ==> K::key_lt(children@[j].0@, key@),
            decreases n - i,
        {
            match children[i].0.compare(key) {
                KeyOrder::Less => {
                    i += 1;
                },
                KeyOrder::Equal => {
                    return (i, true);
                },
                KeyOrder::Greater => {
                    return (i, false);
                },
            }
        }
        (n, false)
    }
}

impl<K: PathKey, V> Trie<K, V> {
    /// Stores `v` at the path `k`, creating a node for every prefix
    /// of `k` that did not exist yet, and hands back the value that
    /// stood at exactly that path before, if any (a re-insertion is
    /// a silent overwrite).  No other path's value changes, and the
    /// tree gains exactly the nodes along `k`.
    pub fn insert(&mut self, k: Vec<K>, v: V) -> (r: Option<V>)
        requires
            old(self).wf(),
        ensures
            final(self).wf(),
            r == old(self).value_at(key_views(k@)),
            final(self).value_at(key_views(k@)) == Some(v),
            forall|p: Seq<<K as View>::V>|
                p != key_views(k@) ==> #[trigger] final(self).value_at(p) == old(
                    self,
                ).value_at(p),
            forall|p: Seq<<K as View>::V>|
                #[trigger] final(self).has_node(p) <==> old(self).has_node(p) || is_prefix_of(
                    p,
                    key_views(k@),
                ),
        decreases k@.len(),
    {
        let ghost kv = key_views(k@);
        let ghost t0 = *self;
        if k.len() == 0 {
            let mut val = Some(v);
            core::mem::swap(&mut self.value, &mut val);
            proof {
                assert(kv =~= Seq::<<K as View>::V>::empty());
                assert forall|p: Seq<<K as View>::V>| p != kv implies #[trigger] self.value_at(p)
                    == t0.value_at(p) by {
                    if p.len() == 0 {
                        assert(p =~= kv);
                    }
                }
                assert forall|p: Seq<<K as View>::V>| #[trigger] self.has_node(p) <==> t0.has_node(
                    p,
                ) || is_prefix_of(p, kv) by {
                    if p.len() == 0 {
                        assert(p =~= kv.subrange(0, 0));
                    }
                }
            }
            return val;
        }
        let mut rest = k;
        let first = rest.remove(0);
        proof {
            assert(key_views(rest@) =~= kv.drop_first());
            assert(first@ == kv[0]);
        }
        let (pos, matched) = Self::find_child_pos(&self.children, &first);
        let ghost cs0 = self.children@;
        if matched {
            let mut pair = self.children.remove(pos);
            let ghost child0 = pair.1;
            let r = pair.1.insert(rest, v);
            let ghost child1 = pair.1;
            self.children.insert(pos, pair);
            proof {
                let cs1 = self.children@;
                assert(cs1 =~= cs0.update(pos as int, (cs0[pos as int].0, child1)));
                lemma_key_index_props(cs0, kv[0]);
                assert(key_index(cs0, kv[0]) == pos) by {
                    if key_index(cs0, kv[0]) < pos {
                        let j = key_index(cs0, kv[0]);
                        if j >= 0 {
                            K::lemma_key_order(cs0[j].0@, kv[0], kv[0]);
                        }
                    }
                }
                lemma_key_index_props(cs1, kv[0]);
                lemma_key_index_same_keys(cs0, cs1, kv[0]);
                assert(t0.spec_child(kv[0]) == Some(child0));
                assert(self.spec_child(kv[0]) == Some(child1));
                // an unequal head leads to an untouched subtree
                assert forall|x: <K as View>::V| x != kv[0] implies self.spec_child(x)
                    == t0.spec_child(x) by {
                    lemma_key_index_same_keys(cs0, cs1, x);
                    lemma_key_index_props(cs0, x);
                    let i = key_index(cs0, x);
                    if i >= 0 {
                        assert(i != pos);
                        assert(cs1[i] == cs0[i]);
                    }
                }
                // well-formedness
                assert(forall|i: int| 0 <= i < cs1.len() ==> cs1[i].0@ == cs0[i].0@);
                assert forall|i: int| 0 <= i < cs1.len() implies (#[trigger] cs1[i].1).wf() by {
                    if i != pos {
                        assert(cs1[i].1 == cs0[i].1);
                    }
                }
                assert(self.wf());
                // value_at everywhere
                assert(self.value_at(kv) == Some(v));
                assert(r == t0.value_at(kv));
                assert forall|p: Seq<<K as View>::V>| p != kv implies #[trigger] self.value_at(p)
                    == t0.value_at(p) by {
                    if p.len() > 0 && p[0] == kv[0] {
                        assert(p.drop_first() != kv.drop_first()) by {
                            if p.drop_first() == kv.drop_first() {
                                lemma_cons_eq(p, kv);
                            }
                        }
                        assert(self.value_at(p) == child1.value_at(p.drop_first()));
                        assert(t0.value_at(p) == child0.value_at(p.drop_first()));
                    }
                }
                // node shape everywhere
                assert forall|p: Seq<<K as View>::V>| #[trigger] self.has_node(p)
                    <==> t0.has_node(p) || is_prefix_of(p, kv) by {
                    if p.len() == 0 {
                        assert(p =~= kv.subrange(0, 0));
                    } else if p[0] == kv[0] {
                        assert(self.has_node(p) == child1.has_node(p.drop_first()));
                        assert(t0.has_node(p) == child0.has_node(p.drop_first()));
                        lemma_prefix_drop(p, kv);
                    } else {
                        assert(!is_prefix_of(p, kv)) by {
                            if is_prefix_of(p, kv) {
                                assert(p[0] == kv.subrange(0, p.len() as int)[0]);
                            }
                        }
                    }
                }
            }
            r
        } else {
            let mut node = Trie::new();
            let ghost node0 = node;
            let r = node.insert(rest, v);
            let ghost newchild = node;
            self.children.insert(pos, (first, node));
            proof {
                let cs1 = self.children@;
                let pair = cs1[pos as int];
                assert(cs1 == cs0.insert(pos as int, pair));
                lemma_key_index_props(cs0, kv[0]);
                lemma_key_index_props(cs1, kv[0]);
                // the key is new: everything at or after `pos` is above it
                assert(key_index(cs0, kv[0]) < 0) by {
                    let j = key_index(cs0, kv[0]);
                    if j >= 0 {
                        if j < pos {
                            K::lemma_key_order(cs0[j].0@, kv[0], kv[0]);
                        } else if pos < cs0.len() {
                            K::lemma_key_order(kv[0], cs0[pos as int].0@, cs0[j].0@);
                            if j > pos {
                                assert(K::key_lt(cs0[pos as int].0@, cs0[j].0@));
                                K::lemma_key_order(kv[0], cs0[pos as int].0@, cs0[j].0@);
                                assert(K::key_lt(kv[0], cs0[j].0@));
                                K::lemma_key_order(kv[0], cs0[j].0@, cs0[j].0@);
                            }
                        }
                    }
                }
                assert(t0.spec_child(kv[0]) is None);
                assert(key_index(cs1, kv[0]) == pos) by {
                    assert(cs1[pos as int].0@ == kv[0]);
                    assert forall|j: int| 0 <= j < pos implies cs1[j].0@ != kv[0] by {
                        assert(cs1[j] == cs0[j]);
                        K::lemma_key_order(cs0[j].0@, kv[0], kv[0]);
                    }
                    if key_index(cs1, kv[0]) < 0 {
                    } else if key_index(cs1, kv[0]) > pos {
                        assert(cs1[pos as int].0@ != kv[0]);
                    }
                }
                assert(self.spec_child(kv[0]) == Some(newchild));
                assert forall|x: <K as View>::V| x != kv[0] implies self.spec_child(x)
                    == t0.spec_child(x) by {
                    lemma_key_index_insert(cs0, pos as int, pair, x);
                }
                // well-formedness: the new pair slots in between
                assert forall|i: int, j: int| 0 <= i < j < cs1.len() implies K::key_lt(
                    cs1[i].0@,
                    cs1[j].0@,
                ) by {
                    if j < pos {
                        assert(cs1[i] == cs0[i] && cs1[j] == cs0[j]);
                    } else if i < pos && j == pos {
                        assert(cs1[i] == cs0[i]);
                    } else if i < pos && j > pos {
                        assert(cs1[i] == cs0[i] && cs1[j] == cs0[j - 1]);
                        if j - 1 == pos {
                        }
                        if i < j - 1 {
                        } else {
                            assert(i == pos);
                        }
                        if j - 1 > i {
                            if j - 1 == pos {
                                assert(K::key_lt(cs0[i].0@, kv[0]));
                                assert(K::key_lt(kv[0], cs0[pos as int].0@));
                                K::lemma_key_order(cs0[i].0@, kv[0], cs0[pos as int].0@);
                            }
                        }
                    } else if i == pos {
                        assert(cs1[j] == cs0[j - 1]);
                        assert(K::key_lt(kv[0], cs0[pos as int].0@));
                        if j - 1 == pos {
                        } else {
                            assert(K::key_lt(cs0[pos as int].0@, cs0[j - 1].0@));
                            K::lemma_key_order(kv[0], cs0[pos as int].0@, cs0[j - 1].0@);
                        }
                    } else {
                        assert(cs1[i] == cs0[i - 1] && cs1[j] == cs0[j - 1]);
                    }
                }
                assert forall|i: int| 0 <= i < cs1.len() implies (#[trigger] cs1[i].1).wf() by {
                    if i < pos {
                        assert(cs1[i].1 == cs0[i].1);
                    } else if i == pos {
                        assert(cs1[i].1 == newchild);
                    } else {
                        assert(cs1[i].1 == cs0[i - 1].1);
                    }
                }
                assert(self.wf());
                // the empty tree held nothing, so the callee's frame
                // says the new child holds only the inserted path
                assert(self.value_at(kv) == Some(v));
                assert(r == t0.value_at(kv)) by {
                    assert(t0.value_at(kv) is None);
                    assert(node0.value_at(kv.drop_first()) is None) by {
                        if kv.drop_first().len() > 0 {
                            assert(key_index(node0.children@, kv.drop_first()[0]) == -1);
                        }
                    }
                }
                assert forall|p: Seq<<K as View>::V>| p != kv implies #[trigger] self.value_at(p)
                    == t0.value_at(p) by {
                    if p.len() > 0 && p[0] == kv[0] {
                        assert(p.drop_first() != kv.drop_first()) by {
                            if p.drop_first() == kv.drop_first() {
                                lemma_cons_eq(p, kv);
                            }
                        }
                        assert(self.value_at(p) == newchild.value_at(p.drop_first()));
                        assert(node0.value_at(p.drop_first()) is None) by {
                            if p.drop_first().len() > 0 {
                                assert(key_index(node0.children@, p.drop_first()[0]) == -1);
                            }
                        }
                        assert(t0.value_at(p) is None);
                    }
                }
                assert forall|p: Seq<<K as View>::V>| #[trigger] self.has_node(p)
                    <==> t0.has_node(p) || is_prefix_of(p, kv) by {
                    if p.len() == 0 {
                        assert(p =~= kv.subrange(0, 0));
                    } else if p[0] == kv[0] {
                        assert(self.has_node(p) == newchild.has_node(p.drop_first()));
                        assert(!t0.has_node(p));
                        let q = p.drop_first();
                        assert(node0.has_node(q) <==> q.len() == 0) by {
                            if q.len() > 0 {
                                assert(key_index(node0.children@, q[0]) == -1);
                            }
                        }
                        assert(q.len() == 0 ==> is_prefix_of(q, kv.drop_first())) by {
                            if q.len() == 0 {
                                assert(q =~= kv.drop_first().subrange(0, 0));
                            }
                        }
                        lemma_prefix_drop(p, kv);
                    } else {
                        assert(!is_prefix_of(p, kv)) by {
                            if is_prefix_of(p, kv) {
                                assert(p[0] == kv.subrange(0, p.len() as int)[0]);
                            }
                        }
                    }
                }
            }
            r
        }
    }

    /// Walks `k` from this node while a matching child exists and
    /// returns the matched leading slice of `k` together with the
    /// value stored at the node the walk stops at, if any.
    pub fn get_longest_prefix<'a>(&self, k: &'a [K]) -> (r: (&'a [K], Option<&V>))
        ensures
            r.0@ == k@.subrange(0, self.prefix_len(key_views(k@)) as int),
            match r.1 {
                Some(v) => self.node_at(key_views(k@)).value == Some(*v),
                None => self.node_at(key_views(k@)).value is None,
            },
        decreases k@.len(),
    {
        let ghost kv = key_views(k@);
        if k.len() == 0 {
            proof {
                assert(kv.len() == 0);
                assert(k@.subrange(0, 0) =~= k@);
            }
            return (k, self.value.as_ref());
        }
        let first = vstd::slice::slice_index_get(k, 0);
        let n = self.children.len();
        let mut idx: usize = 0;
        while idx < n
            invariant
                n == self.children@.len(),
                idx <= n,
                k@.len() > 0,
                *first == k@[0],
                kv == key_views(k@),
                forall|j: int| 0 <= j < idx ==> self.children@[j].0@ != k@[0]@,
            decreases n - idx,
        {
            match self.children[idx].0.compare(first) {
                KeyOrder::Equal => {
                    proof {
                        assert(kv[0] == k@[0]@);
                        lemma_key_index_props(self.children@, kv[0]);
                        assert(key_index(self.children@, kv[0]) == idx);
                    }
                    let child = &self.children[idx].1;
                    let rest = vstd::slice::slice_subrange(k, 1, k.len());
                    proof {
                        assert(rest@ =~= k@.drop_first());
                        assert(key_views(rest@) =~= kv.drop_first());
                    }
                    let sub = child.get_longest_prefix(rest);
                    let m = sub.0.len();
                    proof {
                        child.lemma_prefix_len_le(kv.drop_first());
                        assert(sub.0@.len() == child.prefix_len(kv.drop_first()));
                        assert(self.prefix_len(kv) == 1 + child.prefix_len(kv.drop_first()));
                    }
                    let out = vstd::slice::slice_subrange(k, 0, 1 + m);
                    proof {
                        assert(out@ =~= k@.subrange(0, self.prefix_len(kv) as int));
                        assert(self.node_at(kv) == child.node_at(kv.drop_first()));
                    }
                    return (out, sub.1);
                },
                KeyOrder::Less => {
                    proof {
                        K::lemma_key_order(self.children@[idx as int].0@, k@[0]@, k@[0]@);
                    }
                    idx += 1;
                },
                KeyOrder::Greater => {
                    proof {
                        K::lemma_key_order(k@[0]@, self.children@[idx as int].0@, k@[0]@);
                        assert(self.children@[idx as int].0@ != k@[0]@);
                    }
                    idx += 1;
                },
            }
        }
        proof {
            assert(kv[0] == k@[0]@);
            lemma_key_index_props(self.children@, kv[0]);
            assert(key_index(self.children@, kv[0]) < 0) by {
                let j = key_index(self.children@, kv[0]);
                if j >= 0 {
                }
            }
            assert(self.prefix_len(kv) == 0);
            assert(self.node_at(kv) == *self);
        }
        let out = vstd::slice::slice_subrange(k, 0, 0);
        proof {
            assert(out@ =~= k@.subrange(0, 0));
        }
        (out, self.value.as_ref())
    }

    /// Walks `k` like `get_longest_prefix` and returns the node the
    /// walk stops at.
    pub fn descend(&self, k: &[K]) -> (r: &Trie<K, V>)
        ensures
            *r == self.node_at(key_views(k@)),
        decreases k@.len(),
    {
        let ghost kv = key_views(k@);
        if k.len() == 0 {
            return self;
        }
        let first = vstd::slice::slice_index_get(k, 0);
        let n = self.children.len();
        let mut idx: usize = 0;
        while idx < n
            invariant
                n == self.children@.len(),
                idx <= n,
                k@.len() > 0,
                *first == k@[0],
                kv == key_views(k@),
                forall|j: int| 0 <= j < idx ==> self.children@[j].0@ != k@[0]@,
            decreases n - idx,
        {
            match self.children[idx].0.compare(first) {
                KeyOrder::Equal => {
                    proof {
                        assert(kv[0] == k@[0]@);
                        lemma_key_index_props(self.children@, kv[0]);
                        assert(key_index(self.children@, kv[0]) == idx);
                    }
                    let child = &self.children[idx].1;
                    let rest = vstd::slice::slice_subrange(k, 1, k.len());
                    proof {
                        assert(rest@ =~= k@.drop_first());
                        assert(key_views(rest@) =~= kv.drop_first());
                    }
                    return child.descend(rest);
                },
                KeyOrder::Less => {
                    proof {
                        K::lemma_key_order(self.children@[idx as int].0@, k@[0]@, k@[0]@);
                    }
                    idx += 1;
                },
                KeyOrder::Greater => {
                    proof {
                        K::lemma_key_order(k@[0]@, self.children@[idx as int].0@, k@[0]@);
                    }
                    idx += 1;
                },
            }
        }
        proof {
            assert(kv[0] == k@[0]@);
            lemma_key_index_props(self.children@, kv[0]);
            assert(self.node_at(kv) == *self);
        }
        self
    }

    /// The walk along the matched prefix of `q` ends at the same
    /// node as the walk along all of `q`.
    pub proof fn lemma_node_at_prefix(self, q: Seq<<K as View>::V>)
        ensures
            self.node_at(q.subrange(0, self.prefix_len(q) as int)) == self.node_at(q),
        decreases q.len(),
    {
        let plen = self.prefix_len(q) as int;
        if q.len() == 0 {
            assert(q.subrange(0, 0) =~= q);
        } else {
            match self.spec_child(q[0]) {
                None => {
                    assert(plen == 0);
                    assert(q.subrange(0, 0) =~= Seq::<<K as View>::V>::empty());
                },
                Some(c) => {
                    c.lemma_node_at_prefix(q.drop_first());
                    c.lemma_prefix_len_le(q.drop_first());
                    let sub = q.subrange(0, plen);
                    assert(sub[0] == q[0]);
                    assert(sub.drop_first() =~= q.drop_first().subrange(
                        0,
                        c.prefix_len(q.drop_first()) as int,
                    ));
                    assert(self.node_at(sub) == c.node_at(sub.drop_first()));
                },
            }
        }
    }

    /// The children's key views are strictly sorted and every child
    /// is itself well formed.
    pub open spec fn wf(self) -> bool
        decreases self,
    {
        &&& (forall|i: int, j: int|
            0 <= i < j < self.children@.len() ==> K::key_lt(
                self.children@[i].0@,
                self.children@[j].0@,
            ))
        &&& (forall|i: int|
            0 <= i < self.children@.len() ==> (#[trigger] self.children@[i].1).wf())
    }

    /// An empty tree: no value, no children.
    pub fn new() -> (r: Self)
        ensures
            r.value is None,
            r.children@.len() == 0,
            r.wf(),
    {
        Self { value: None, children: Vec::new() }
    }
}

} // verus!
