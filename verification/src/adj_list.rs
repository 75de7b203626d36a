//! The adjacency store: a mapping from each declared node to the ordered
//! sequence of its successors, together with lazy cursors over the node set
//! and over the edge set.
//!
//! Nodes are `usize` identifiers chosen by the caller.  Internally the store
//! keeps the distinct declared nodes in `keys` and, for every position `i` of
//! `keys`, the successor list `adj[i]` as a list of *positions* into `keys`.
//! An edge must connect two declared nodes, so every stored position is a
//! valid index of `keys`.

use std::collections::HashMap;
use vstd::multiset::Multiset;
use vstd::prelude::*;

verus! {

broadcast use vstd::std_specs::hash::group_hash_axioms;

/// The predicate "this edge leaves node `a`", used to describe each
/// successor list as a selection from the declared edge sequence.
pub open spec fn src_is(a: usize) -> spec_fn((usize, usize)) -> bool {
    |e: (usize, usize)| e.0 == a
}

/// A directed graph as an adjacency list over `usize` node identifiers.
pub struct AdjList {
    pub(crate) keys: Vec<usize>,
    pub(crate) adj: Vec<Vec<usize>>,
}

impl AdjList {
    /// The distinct declared nodes, in the store's own order.
    pub closed spec fn key_seq(self) -> Seq<usize> {
        self.keys@
    }

    /// Number of declared nodes.
    pub closed spec fn node_count(self) -> nat {
        self.keys@.len()
    }

    /// Successor positions of the node at position `i` of `key_seq`.
    pub closed spec fn succs(self, i: int) -> Seq<usize> {
        self.adj@[i]@
    }

    /// Well-formedness: one successor list per node, distinct nodes, and
    /// every stored successor position in range.
    pub closed spec fn wf(self) -> bool {
        &&& self.adj@.len() == self.keys@.len()
        &&& self.keys@.no_duplicates()
        &&& forall|i: int, k: int|
            0 <= i < self.adj@.len() && 0 <= k < self.succs(i).len() ==> (#[trigger] self.succs(
                i,
            )[k]) < self.keys@.len()
    }

    /// The (source, target) pairs stored for the node at position `i`, in
    /// successor-list order.
    pub closed spec fn pair_seq(self, i: int) -> Seq<(usize, usize)> {
        self.succs(i).map_values(
            |j: usize| (self.key_seq()[i], self.key_seq()[j as int]),
        )
    }

    /// All edge pairs of the nodes at positions `i`, `i+1`, ... in order.
    pub closed spec fn pairs_from(self, i: int) -> Seq<(usize, usize)>
        decreases self.node_count() - i,
    {
        if i < 0 || i >= self.node_count() {
            Seq::empty()
        } else {
            self.pair_seq(i) + self.pairs_from(i + 1)
        }
    }

    /// Every stored edge as a (source, target) pair: grouped by source node
    /// in key order, in successor-list order within one source.
    pub closed spec fn edge_list(self) -> Seq<(usize, usize)> {
        self.pairs_from(0)
    }

    /// There is an edge from node `a` to node `b`.
    pub closed spec fn edge_between(self, a: usize, b: usize) -> bool {
        exists|i: int, k: int|
            0 <= i < self.node_count() && 0 <= k < self.succs(i).len() && self.key_seq()[i] == a
                && self.key_seq()[#[trigger] self.succs(i)[k] as int] == b
    }

    /// `p` lists the nodes of a directed cycle: each node has an edge to the
    /// next one, and the last node has an edge back to the first.
    pub closed spec fn is_cycle(self, p: Seq<usize>) -> bool {
        &&& p.len() >= 1
        &&& forall|l: int| 0 <= l < p.len() - 1 ==> self.edge_between(#[trigger] p[l], p[l + 1])
        &&& self.edge_between(p[p.len() - 1], p[0])
    }

    /// The graph contains at least one directed cycle (a self-loop counts).
    pub closed spec fn has_cycle(self) -> bool {
        exists|p: Seq<usize>| self.is_cycle(p)
    }

    /// An empty store: no nodes, no edges.
    pub fn new() -> (r: AdjList)
        ensures
            r.wf(),
            r.node_count() == 0,
            r.key_seq() == Seq::<usize>::empty(),
            r.edge_list() == Seq::<(usize, usize)>::empty(),
    {
        AdjList { keys: Vec::new(), adj: Vec::new() }
    }

    /// Number of declared nodes.
    pub fn size(&self) -> (r: usize)
        ensures
            r == self.node_count(),
    {
        self.keys.len()
    }

    /// Builds the store from a declared node list and a declared edge list.
    /// Duplicate node declarations collapse; both endpoints of every edge
    /// must be declared nodes.  Each node's successor list holds exactly the
    /// targets of the declared edges leaving it, in declaration order.
    pub fn from(nodes: &[usize], edges: &[(usize, usize)]) -> (r: AdjList)
        requires
            forall|e: int|
                0 <= e < edges@.len() ==> nodes@.contains((#[trigger] edges@[e]).0)
                    && nodes@.contains(edges@[e].1),
        ensures
            r.wf(),
            r.key_seq().to_set() == nodes@.to_set(),
            r.node_count() == nodes@.to_set().len(),
            forall|i: int|
                0 <= i < r.node_count() ==> #[trigger] r.pair_seq(i) == edges@.filter(
                    src_is(r.key_seq()[i]),
                ),
            r.edge_list().to_multiset() == edges@.to_multiset(),
    {
        let mut keys: Vec<usize> = Vec::new();
        let mut adj: Vec<Vec<usize>> = Vec::new();
        let mut index: HashMap<usize, usize> = HashMap::new();
        let mut ni: usize = 0;
        while ni < nodes.len()
            invariant
                ni <= nodes@.len(),
                adj@.len() == keys@.len(),
                keys@.no_duplicates(),
                forall|i: int| 0 <= i < adj@.len() ==> (#[trigger] adj@[i])@.len() == 0,
                forall|x: usize| #[trigger] index@.contains_key(x) <==> keys@.contains(x),
                forall|j: int|
                    0 <= j < keys@.len() ==> index@.contains_key(#[trigger] keys@[j])
                        && index@[keys@[j]] == j,
                keys@.to_set() == nodes@.take(ni as int).to_set(),
            decreases nodes@.len() - ni,
        {
            let x = nodes[ni];
            proof {
                assert(nodes@.take(ni + 1) =~= nodes@.take(ni as int).push(nodes@[ni as int]));
                broadcast use vstd::prelude::Seq::lemma_push_to_set_commute;

            }
            if !index.contains_key(&x) {
                let ghost keys_prev = keys@;
                index.insert(x, keys.len());
                keys.push(x);
                adj.push(Vec::new());
                proof {
                    assert(keys@[keys@.len() - 1] == x);
                    assert forall|y: usize| #[trigger] keys@.contains(y) implies (y == x
                        || keys_prev.contains(y)) by {
                        let w = choose|w: int| 0 <= w < keys@.len() && keys@[w] == y;
                        if w < keys@.len() - 1 {
                            assert(keys_prev[w] == y);
                        }
                    };
                    assert forall|y: usize| keys_prev.contains(y) implies #[trigger] keys@.contains(
                        y,
                    ) by {
                        let w = choose|w: int| 0 <= w < keys_prev.len() && keys_prev[w] == y;
                        assert(keys@[w] == y);
                    };
                }
            } else {
                proof {
                    assert(keys@.to_set().contains(x));
                    assert(keys@.to_set().insert(x) =~= keys@.to_set());
                }
            }
            ni += 1;
        }
        proof {
            assert(nodes@.take(nodes@.len() as int) =~= nodes@);
            keys@.unique_seq_to_set();
        }
        let ghost keys0 = keys@;
        let mut ei: usize = 0;
        while ei < edges.len()
            invariant
                ei <= edges@.len(),
                keys@ == keys0,
                adj@.len() == keys@.len(),
                keys@.no_duplicates(),
                keys@.to_set() == nodes@.to_set(),
                forall|x: usize| #[trigger] index@.contains_key(x) <==> keys@.contains(x),
                forall|j: int|
                    0 <= j < keys@.len() ==> index@.contains_key(#[trigger] keys@[j])
                        && index@[keys@[j]] == j,
                forall|e: int|
                    0 <= e < edges@.len() ==> nodes@.contains((#[trigger] edges@[e]).0)
                        && nodes@.contains(edges@[e].1),
                forall|i: int, k: int|
                    0 <= i < adj@.len() && 0 <= k < (#[trigger] adj@[i])@.len() ==> (#[trigger] adj@[i]@[k])
                        < keys@.len(),
                forall|i: int|
                    0 <= i < keys@.len() ==> group_pairs(keys@, adj@[i]@, i) == edges@.take(
                        ei as int,
                    ).filter(src_is(keys@[i])),
            decreases edges@.len() - ei,
        {
            let (s, t) = edges[ei];
            proof {
                assert(nodes@.to_set().contains(s));
                assert(nodes@.to_set().contains(t));
                assert(keys@.contains(s));
                assert(keys@.contains(t));
            }
            let si_ref = index.get(&s);
            let si = *si_ref.unwrap();
            let ti_ref = index.get(&t);
            let ti = *ti_ref.unwrap();
            proof {
                let js = choose|j: int| 0 <= j < keys@.len() && keys@[j] == s;
                assert(index@[keys@[js]] == js);
                assert(si == js);
                let jt = choose|j: int| 0 <= j < keys@.len() && keys@[j] == t;
                assert(index@[keys@[jt]] == jt);
                assert(ti == jt);
            }
            let ghost adj_old = adj@;
            adj[si].push(ti);
            proof {
                lemma_groups_after_append(keys@, adj_old, adj@, edges@, ei as int, si as int, ti);
            }
            ei += 1;
        }
        proof {
            assert(edges@.take(edges@.len() as int) =~= edges@);
        }
        let r = AdjList { keys, adj };
        proof {
            lemma_pairs_from_equals_groups(r, edges@, 0);
            assert forall|x: int| 0 <= x < edges@.len() implies r.key_seq().contains(
                (#[trigger] edges@[x]).0,
            ) by {
                assert(nodes@.to_set().contains(edges@[x].0));
            };
            lemma_groups_multiset(r.key_seq(), edges@);
        }
        r
    }
}

/// The (source, target) pairs that the successor-position list `row` of the
/// node at position `i` of `keys` stands for.
pub(crate) open spec fn group_pairs(keys: Seq<usize>, row: Seq<usize>, i: int) -> Seq<
    (usize, usize),
> {
    row.map_values(|j: usize| (keys[i], keys[j as int]))
}

/// Appending edge `(keys[si], keys[ti])` to successor list `si` extends that
/// group by exactly this pair and leaves every other group unchanged.
proof fn lemma_groups_after_append(
    keys: Seq<usize>,
    adj_old: Seq<Vec<usize>>,
    adj_new: Seq<Vec<usize>>,
    edges: Seq<(usize, usize)>,
    ei: int,
    si: int,
    ti: usize,
)
    requires
        keys.no_duplicates(),
        adj_old.len() == keys.len(),
        0 <= ei < edges.len(),
        0 <= si < keys.len(),
        0 <= ti < keys.len(),
        keys[si] == edges[ei].0,
        keys[ti as int] == edges[ei].1,
        adj_new == adj_old.update(si, adj_new[si]),
        adj_new[si]@ == adj_old[si]@.push(ti),
        forall|i: int|
            0 <= i < keys.len() ==> group_pairs(keys, adj_old[i]@, i) == edges.take(ei).filter(
                src_is(keys[i]),
            ),
    ensures
        forall|i: int|
            0 <= i < keys.len() ==> group_pairs(keys, adj_new[i]@, i) == edges.take(ei + 1).filter(
                src_is(keys[i]),
            ),
{
    let e = edges[ei];
    assert(edges.take(ei + 1) =~= edges.take(ei).push(e));
    assert forall|i: int| 0 <= i < keys.len() implies group_pairs(keys, adj_new[i]@, i)
        == edges.take(ei + 1).filter(src_is(keys[i])) by {
        edges.take(ei).lemma_filter_push(e, src_is(keys[i]));
        if i == si {
            assert(src_is(keys[i])(e));
            assert(group_pairs(keys, adj_new[i]@, i) =~= group_pairs(keys, adj_old[i]@, i).push(
                (keys[si], keys[ti as int]),
            ));
        } else {
            assert(keys[i] != keys[si]);
            assert(!src_is(keys[i])(e));
            assert(adj_new[i] == adj_old[i]);
        }
    }
}

// ---------------------------------------------------------------------------
// Lazy cursors over the node set and the edge set.
// ---------------------------------------------------------------------------

/// A restartable cursor over the declared nodes; yields each node once, in
/// the store's own order, without copying the node set.
pub struct Nodes<'a> {
    list: &'a AdjList,
    i: usize,
}

impl<'a> Nodes<'a> {
    /// The store this cursor reads.
    pub closed spec fn src(self) -> AdjList {
        *self.list
    }

    pub closed spec fn inv(self) -> bool {
        self.i <= self.src().key_seq().len()
    }

    /// The nodes not yet yielded, in order.
    pub closed spec fn remaining(self) -> Seq<usize> {
        self.src().key_seq().skip(self.i as int)
    }

    /// Yields the next node, or `None` once every node has been yielded.
    pub fn next(&mut self) -> (r: Option<usize>)
        requires
            old(self).inv(),
        ensures
            final(self).inv(),
            final(self).src() == old(self).src(),
            match r {
                Some(x) => old(self).remaining().len() > 0 && x == old(self).remaining()[0]
                    && final(self).remaining() == old(self).remaining().drop_first(),
                None => old(self).remaining().len() == 0 && final(self).remaining() == old(
                    self,
                ).remaining(),
            },
    {
        if self.i < self.list.keys.len() {
            let x = self.list.keys[self.i];
            self.i = self.i + 1;
            proof {
                assert(self.src().key_seq().skip(self.i as int) =~= old(
                    self,
                ).remaining().drop_first());
            }
            Some(x)
        } else {
            None
        }
    }
}

/// One directed edge, as the pair (source, target).
#[derive(Clone, Copy, PartialEq, Eq, Structural, Debug)]
pub struct Edge(pub usize, pub usize);

/// A restartable cursor over the stored edges; yields every edge exactly
/// once, grouped by source node, in successor-list order within one source,
/// without materialising a flattened list.
pub struct Edges<'a> {
    list: &'a AdjList,
    i: usize,
    k: usize,
}

impl<'a> Edges<'a> {
    /// The store this cursor reads.
    pub closed spec fn src(self) -> AdjList {
        *self.list
    }

    pub closed spec fn inv(self) -> bool {
        &&& self.src().wf()
        &&& self.i < self.src().node_count() ==> self.k <= self.src().succs(self.i as int).len()
    }

    /// The edge pairs not yet yielded, in order.
    pub closed spec fn remaining(self) -> Seq<(usize, usize)> {
        if self.i < self.src().node_count() {
            self.src().pair_seq(self.i as int).skip(self.k as int) + self.src().pairs_from(
                self.i as int + 1,
            )
        } else {
            Seq::empty()
        }
    }

    /// Yields the next edge, or `None` once every edge has been yielded.
    /// Empty successor lists are skipped without ending the walk.
    pub fn next(&mut self) -> (r: Option<Edge>)
        requires
            old(self).inv(),
        ensures
            final(self).inv(),
            final(self).src() == old(self).src(),
            match r {
                Some(e) => old(self).remaining().len() > 0 && (e.0, e.1) == old(self).remaining()[0]
                    && final(self).remaining() == old(self).remaining().drop_first(),
                None => old(self).remaining().len() == 0 && final(self).remaining() == old(
                    self,
                ).remaining(),
            },
    {
        let g = self.list;
        let n = g.keys.len();
        while self.i < n && self.k >= g.adj[self.i].len()
            invariant
                self.list == old(self).list,
                g == self.list,
                n == self.src().node_count(),
                self.inv(),
                self.remaining() == old(self).remaining(),
            decreases n - self.i,
        {
            proof {
                let gg = self.src();
                let i = self.i as int;
                assert(gg.pair_seq(i).len() == gg.succs(i).len());
                assert(gg.pair_seq(i).skip(self.k as int) =~= Seq::<(usize, usize)>::empty());
                assert(self.remaining() =~= gg.pairs_from(i + 1));
            }
            self.i = self.i + 1;
            self.k = 0;
            proof {
                let gg = self.src();
                let i = self.i as int;
                if i < gg.node_count() {
                    assert(gg.pairs_from(i) == gg.pair_seq(i) + gg.pairs_from(i + 1));
                    assert(gg.pair_seq(i).skip(0) =~= gg.pair_seq(i));
                }
            }
        }
        if self.i < n {
            let j = g.adj[self.i][self.k];
            proof {
                assert((j as int) < n);
            }
            let e = Edge(g.keys[self.i], g.keys[j]);
            let ghost pre = *self;
            self.k = self.k + 1;
            proof {
                let gg = pre.src();
                let i = pre.i as int;
                let k = pre.k as int;
                assert(gg.pair_seq(i).len() == gg.succs(i).len());
                assert(gg.pair_seq(i)[k] == (gg.key_seq()[i], gg.key_seq()[gg.succs(i)[k] as int]));
                assert(pre.remaining()[0] == gg.pair_seq(i).skip(k)[0]);
                assert(self.remaining() =~= pre.remaining().drop_first());
            }
            Some(e)
        } else {
            None
        }
    }
}

impl AdjList {
    /// A fresh lazy cursor over the declared nodes.
    pub fn nodes<'a>(&'a self) -> (r: Nodes<'a>)
        ensures
            r.src() == *self,
            r.inv(),
            r.remaining() == self.key_seq(),
    {
        proof {
            assert(self.key_seq().skip(0) =~= self.key_seq());
        }
        Nodes { list: self, i: 0 }
    }

    /// A fresh lazy cursor over all stored edges.
    pub fn edges<'a>(&'a self) -> (r: Edges<'a>)
        requires
            self.wf(),
        ensures
            r.src() == *self,
            r.inv(),
            r.remaining() == self.edge_list(),
    {
        let r = Edges { list: self, i: 0, k: 0 };
        proof {
            if self.node_count() > 0 {
                assert(self.pairs_from(0) == self.pair_seq(0) + self.pairs_from(1));
                assert(self.pair_seq(0).skip(0) =~= self.pair_seq(0));
            }
        }
        r
    }
}

// ---------------------------------------------------------------------------
// Cycle detection: an iterative three-colour depth-first search.
// ---------------------------------------------------------------------------

/// Traversal state of one node during the search.
#[derive(Clone, Copy)]
enum Color {
    /// Not yet reached.
    White,
    /// On the active search path.
    Gray,
    /// Fully explored: no cycle reachable without leaving explored ground.
    Black,
}

/// There is a stored edge from the node at position `i` to the node at
/// position `j`.
spec fn idx_edge(g: AdjList, i: int, j: int) -> bool {
    &&& 0 <= i < g.node_count()
    &&& exists|k: int| 0 <= k < g.succs(i).len() && (#[trigger] g.succs(i)[k]) as int == j
}

/// A directed cycle given by node positions.
spec fn is_idx_cycle(g: AdjList, q: Seq<int>) -> bool {
    &&& q.len() >= 1
    &&& forall|l: int| 0 <= l < q.len() ==> 0 <= #[trigger] q[l] < g.node_count()
    &&& forall|l: int| 0 <= l < q.len() - 1 ==> idx_edge(g, #[trigger] q[l], q[l + 1])
    &&& idx_edge(g, q[q.len() - 1], q[0])
}

/// The stored successor relation restated at the level of node identifiers.
proof fn lemma_edge_between_intro(g: AdjList, i: int, k: int)
    requires
        0 <= i < g.node_count(),
        0 <= k < g.succs(i).len(),
    ensures
        g.edge_between(g.key_seq()[i], g.key_seq()[g.succs(i)[k] as int]),
{
    let a = g.key_seq()[i];
    let b = g.key_seq()[g.succs(i)[k] as int];
    assert(0 <= i < g.node_count() && 0 <= k < g.succs(i).len() && g.key_seq()[i] == a
        && g.key_seq()[#[trigger] g.succs(i)[k] as int] == b);
}

/// A position-level cycle names an identifier-level cycle.
proof fn lemma_idx_cycle_gives_cycle(g: AdjList, q: Seq<int>)
    requires
        is_idx_cycle(g, q),
    ensures
        g.has_cycle(),
{
    let p = Seq::new(q.len(), |l: int| g.key_seq()[q[l]]);
    assert forall|l: int| 0 <= l < p.len() - 1 implies g.edge_between(
        #[trigger] p[l],
        p[l + 1],
    ) by {
        assert(idx_edge(g, q[l], q[l + 1]));
        let k = choose|k: int|
            0 <= k < g.succs(q[l]).len() && (#[trigger] g.succs(q[l])[k]) as int == q[l + 1];
        lemma_edge_between_intro(g, q[l], k);
    };
    assert(g.edge_between(p[p.len() - 1], p[0])) by {
        let last = q[q.len() - 1];
        assert(idx_edge(g, last, q[0]));
        let k = choose|k: int|
            0 <= k < g.succs(last).len() && (#[trigger] g.succs(last)[k]) as int == q[0];
        lemma_edge_between_intro(g, last, k);
    };
    assert(g.is_cycle(p));
}

/// An identifier-level cycle names a position-level cycle, because the
/// declared nodes are distinct.
proof fn lemma_cycle_gives_idx_cycle(g: AdjList, p: Seq<usize>) -> (q: Seq<int>)
    requires
        g.wf(),
        g.is_cycle(p),
    ensures
        is_idx_cycle(g, q),
{
    let q = Seq::new(
        p.len(),
        |l: int| choose|i: int| 0 <= i < g.node_count() && g.key_seq()[i] == p[l],
    );
    assert forall|l: int| 0 <= l < q.len() implies 0 <= #[trigger] q[l] < g.node_count()
        && g.key_seq()[q[l]] == p[l] by {
        if l < p.len() - 1 {
            assert(g.edge_between(p[l], p[l + 1]));
        } else {
            assert(g.edge_between(p[p.len() - 1], p[0]));
        }
        assert(exists|i: int| 0 <= i < g.node_count() && g.key_seq()[i] == p[l]);
    };
    assert forall|l: int| 0 <= l < q.len() - 1 implies idx_edge(g, #[trigger] q[l], q[l + 1]) by {
        assert(g.edge_between(p[l], p[l + 1]));
        let (i, k): (int, int) = choose|i: int, k: int|
            0 <= i < g.node_count() && 0 <= k < g.succs(i).len() && g.key_seq()[i] == p[l]
                && g.key_seq()[(#[trigger] g.succs(i)[k]) as int] == p[l + 1];
        let j = g.succs(i)[k] as int;
        assert(0 <= j < g.node_count());
        assert(g.key_seq().no_duplicates());
        assert(g.key_seq()[q[l]] == g.key_seq()[i]);
        assert(q[l] == i);
        assert(g.key_seq()[q[l + 1]] == g.key_seq()[j]);
        assert(q[l + 1] == j);
        assert((#[trigger] g.succs(q[l])[k]) as int == q[l + 1]);
    };
    assert(idx_edge(g, q[q.len() - 1], q[0])) by {
        let last = p.len() - 1;
        assert(g.edge_between(p[last], p[0]));
        let (i, k): (int, int) = choose|i: int, k: int|
            0 <= i < g.node_count() && 0 <= k < g.succs(i).len() && g.key_seq()[i] == p[last]
                && g.key_seq()[(#[trigger] g.succs(i)[k]) as int] == p[0];
        let j = g.succs(i)[k] as int;
        assert(0 <= j < g.node_count());
        assert(g.key_seq().no_duplicates());
        assert(g.key_seq()[q[last]] == g.key_seq()[i]);
        assert(q[last] == i);
        assert(g.key_seq()[q[0]] == g.key_seq()[j]);
        assert(q[0] == j);
        assert((#[trigger] g.succs(q[last])[k]) as int == q[0]);
    };
    q
}

/// If no position-level cycle exists, no cycle exists at all.
proof fn lemma_no_idx_cycle_no_cycle(g: AdjList)
    requires
        g.wf(),
        forall|q: Seq<int>| !#[trigger] is_idx_cycle(g, q),
    ensures
        !g.has_cycle(),
{
    if g.has_cycle() {
        let p = choose|p: Seq<usize>| g.is_cycle(p);
        let q = lemma_cycle_gives_idx_cycle(g, p);
        assert(!is_idx_cycle(g, q));
        assert(false);
    }
}

/// Number of white entries; only used as a termination measure.
spec fn count_white(cs: Seq<Color>) -> nat
    decreases cs.len(),
{
    if cs.len() == 0 {
        0
    } else {
        count_white(cs.drop_last()) + (if cs.last() is White {
            1nat
        } else {
            0nat
        })
    }
}

proof fn lemma_count_white_update(cs: Seq<Color>, i: int, x: Color)
    requires
        0 <= i < cs.len(),
    ensures
        count_white(cs.update(i, x)) + (if cs[i] is White {
            1int
        } else {
            0int
        }) == count_white(cs) + (if x is White {
            1int
        } else {
            0int
        }),
    decreases cs.len(),
{
    let cs2 = cs.update(i, x);
    if i == cs.len() - 1 {
        assert(cs2.drop_last() =~= cs.drop_last());
        assert(cs2.last() == x);
    } else {
        assert(cs2.drop_last() =~= cs.drop_last().update(i, x));
        assert(cs2.last() == cs.last());
        lemma_count_white_update(cs.drop_last(), i, x);
        assert(cs.drop_last()[i] == cs[i]);
    }
}

/// Successors of a stack frame that are still to be examined; a termination
/// measure.
spec fn frame_rem(g: AdjList, f: (usize, usize)) -> nat {
    if f.1 <= g.succs(f.0 as int).len() {
        (g.succs(f.0 as int).len() - f.1) as nat
    } else {
        0
    }
}

spec fn rem_sum(g: AdjList, st: Seq<(usize, usize)>) -> nat
    decreases st.len(),
{
    if st.len() == 0 {
        0
    } else {
        rem_sum(g, st.drop_last()) + frame_rem(g, st.last())
    }
}

/// The node at position `x` sits in some stack frame.
spec fn on_stack(st: Seq<(usize, usize)>, x: int) -> bool {
    exists|s: int| 0 <= s < st.len() && (#[trigger] st[s]).0 as int == x
}

proof fn lemma_on_stack_same_nodes(st1: Seq<(usize, usize)>, st2: Seq<(usize, usize)>)
    requires
        st1.len() == st2.len(),
        forall|s: int| 0 <= s < st1.len() ==> (#[trigger] st1[s]).0 == st2[s].0,
    ensures
        forall|x: int| #[trigger] on_stack(st1, x) <==> on_stack(st2, x),
{
    assert forall|x: int| #[trigger] on_stack(st1, x) <==> on_stack(st2, x) by {
        if on_stack(st1, x) {
            let s = choose|s: int| 0 <= s < st1.len() && (#[trigger] st1[s]).0 as int == x;
            assert((st2[s]).0 as int == x);
        }
        if on_stack(st2, x) {
            let s = choose|s: int| 0 <= s < st2.len() && (#[trigger] st2[s]).0 as int == x;
            assert((st1[s]).0 as int == x);
        }
    };
}

/// Every frame names a node in range and an examined-successor count within
/// that node's successor list.
spec fn frames_wf(g: AdjList, st: Seq<(usize, usize)>) -> bool {
    forall|s: int|
        0 <= s < st.len() ==> (#[trigger] st[s]).0 < g.node_count() && st[s].1 <= g.succs(
            st[s].0 as int,
        ).len()
}

/// Each frame below the top entered its successor at position `.1 - 1`, and
/// that successor is the next frame's node: the stack is a path.
spec fn frames_chain(g: AdjList, st: Seq<(usize, usize)>) -> bool {
    forall|s: int|
        0 <= s < st.len() - 1 ==> (#[trigger] st[s]).1 >= 1 && g.succs(st[s].0 as int)[st[s].1
            - 1] == st[s + 1].0
}

/// No node occupies two stack frames.
spec fn frames_distinct(st: Seq<(usize, usize)>) -> bool {
    forall|s1: int, s2: int|
        0 <= s1 < s2 < st.len() ==> (#[trigger] st[s1]).0 != (#[trigger] st[s2]).0
}

/// The grey nodes are exactly the stacked ones.
spec fn gray_iff_on_stack(g: AdjList, cs: Seq<Color>, st: Seq<(usize, usize)>) -> bool {
    forall|x: int| 0 <= x < g.node_count() ==> ((#[trigger] cs[x]) is Gray <==> on_stack(st, x))
}

/// Successors of the frame at `s` examined so far are black.  The frame that
/// the next stack entry came through is the one exception below the top.
spec fn examined_black_at(g: AdjList, cs: Seq<Color>, st: Seq<(usize, usize)>, s: int) -> bool {
    forall|c: int|
        0 <= c < (if s == st.len() - 1 {
            st[s].1 as int
        } else {
            st[s].1 - 1
        }) ==> cs[(#[trigger] g.succs(st[s].0 as int)[c]) as int] is Black
}

/// `fin` lists the black nodes in the order they were finished; every
/// successor of a black node is black and was finished earlier.
spec fn done_closed(g: AdjList, cs: Seq<Color>, fin: Seq<int>) -> bool {
    &&& fin.no_duplicates()
    &&& forall|p: int| 0 <= p < fin.len() ==> 0 <= #[trigger] fin[p] < g.node_count()
    &&& forall|x: int| 0 <= x < g.node_count() ==> ((#[trigger] cs[x]) is Black <==> fin.contains(x))
    &&& forall|p: int| 0 <= p < fin.len() ==> succs_before(g, fin, p)
}

spec fn succs_before(g: AdjList, fin: Seq<int>, p: int) -> bool {
    forall|c: int|
        0 <= c < g.succs(fin[p]).len() ==> fin.take(p).contains(
            (#[trigger] g.succs(fin[p])[c]) as int,
        )
}

/// The whole invariant of the search loop.
spec fn dfs_inv(g: AdjList, cs: Seq<Color>, fin: Seq<int>, st: Seq<(usize, usize)>) -> bool {
    &&& cs.len() == g.node_count()
    &&& frames_wf(g, st)
    &&& frames_chain(g, st)
    &&& frames_distinct(st)
    &&& gray_iff_on_stack(g, cs, st)
    &&& forall|s: int| 0 <= s < st.len() ==> #[trigger] examined_black_at(g, cs, st, s)
    &&& done_closed(g, cs, fin)
}

/// Position of `x` in the finish order.
spec fn pos_in(fin: Seq<int>, x: int) -> int {
    choose|p: int| 0 <= p < fin.len() && fin[p] == x
}

proof fn lemma_pos_in(fin: Seq<int>, x: int)
    requires
        fin.contains(x),
    ensures
        0 <= pos_in(fin, x) < fin.len(),
        fin[pos_in(fin, x)] == x,
{
    assert(exists|p: int| 0 <= p < fin.len() && fin[p] == x);
}

/// A stored edge leaving a black node reaches a node finished strictly
/// earlier.
proof fn lemma_black_edge_rank(g: AdjList, cs: Seq<Color>, fin: Seq<int>, i: int, j: int)
    requires
        g.wf(),
        done_closed(g, cs, fin),
        cs.len() == g.node_count(),
        0 <= i < g.node_count(),
        cs[i] is Black,
        idx_edge(g, i, j),
    ensures
        0 <= j < g.node_count(),
        cs[j] is Black,
        fin.contains(i),
        fin.contains(j),
        pos_in(fin, j) < pos_in(fin, i),
{
    assert(fin.contains(i));
    lemma_pos_in(fin, i);
    let p = pos_in(fin, i);
    let k = choose|k: int| 0 <= k < g.succs(i).len() && (#[trigger] g.succs(i)[k]) as int == j;
    assert(0 <= j < g.node_count());
    assert(succs_before(g, fin, p));
    assert(fin.take(p).contains((#[trigger] g.succs(fin[p])[k]) as int));
    assert(fin.take(p).contains(j));
    let p2 = choose|p2: int| 0 <= p2 < fin.take(p).len() && fin.take(p)[p2] == j;
    assert(fin[p2] == j);
    assert(fin.contains(j));
    assert(cs[j] is Black);
    lemma_pos_in(fin, j);
    let pj = pos_in(fin, j);
    if pj != p2 {
        assert(fin.no_duplicates());
        assert(fin[pj] != fin[p2]);
        assert(false);
    }
}

/// Ranks decrease along any stored path through black nodes.
proof fn lemma_black_path_bound(g: AdjList, cs: Seq<Color>, fin: Seq<int>, p: Seq<int>)
    requires
        g.wf(),
        done_closed(g, cs, fin),
        cs.len() == g.node_count(),
        forall|x: int| 0 <= x < g.node_count() ==> (#[trigger] cs[x]) is Black,
        p.len() >= 1,
        forall|l: int| 0 <= l < p.len() ==> 0 <= #[trigger] p[l] < g.node_count(),
        forall|l: int| 0 <= l < p.len() - 1 ==> idx_edge(g, #[trigger] p[l], p[l + 1]),
    ensures
        fin.contains(p[0]),
        fin.contains(p[p.len() - 1]),
        pos_in(fin, p[p.len() - 1]) + p.len() - 1 <= pos_in(fin, p[0]),
    decreases p.len(),
{
    assert(cs[p[0]] is Black);
    assert(fin.contains(p[0]));
    if p.len() > 1 {
        lemma_black_edge_rank(g, cs, fin, p[0], p[1]);
        let rest = p.skip(1);
        assert(rest.len() == p.len() - 1);
        assert forall|l: int| 0 <= l < rest.len() implies 0 <= #[trigger] rest[l]
            < g.node_count() by {
            assert(rest[l] == p[l + 1]);
        };
        assert forall|l: int| 0 <= l < rest.len() - 1 implies idx_edge(
            g,
            #[trigger] rest[l],
            rest[l + 1],
        ) by {
            assert(rest[l] == p[l + 1] && rest[l + 1] == p[l + 2]);
            assert(idx_edge(g, p[l + 1], p[l + 2]));
        };
        lemma_black_path_bound(g, cs, fin, rest);
        assert(rest[0] == p[1] && rest[rest.len() - 1] == p[p.len() - 1]);
    }
}

/// When every node is black and the finish order is closed, the graph has no
/// cycle: along a cycle the finish rank would decrease forever.
proof fn lemma_all_black_acyclic(g: AdjList, cs: Seq<Color>, fin: Seq<int>)
    requires
        g.wf(),
        done_closed(g, cs, fin),
        cs.len() == g.node_count(),
        forall|x: int| 0 <= x < g.node_count() ==> (#[trigger] cs[x]) is Black,
    ensures
        !g.has_cycle(),
{
    assert forall|q: Seq<int>| !#[trigger] is_idx_cycle(g, q) by {
        if is_idx_cycle(g, q) {
            let last = q[q.len() - 1];
            assert(cs[last] is Black);
            lemma_black_edge_rank(g, cs, fin, last, q[0]);
            lemma_black_path_bound(g, cs, fin, q);
            assert(false);
        }
    };
    lemma_no_idx_cycle_no_cycle(g);
}

// ---------------------------------------------------------------------------
// The edge list as a multiset: grouping the declared edges by source node
// loses and invents nothing.
// ---------------------------------------------------------------------------

/// Concatenation of the selections `es.filter(src_is(keys[j]))` for the key
/// positions `j`, `j+1`, ...
spec fn groups_from(keys: Seq<usize>, es: Seq<(usize, usize)>, j: int) -> Seq<(usize, usize)>
    decreases keys.len() - j,
{
    if j < 0 || j >= keys.len() {
        Seq::empty()
    } else {
        es.filter(src_is(keys[j])) + groups_from(keys, es, j + 1)
    }
}

proof fn lemma_groups_from_empty(keys: Seq<usize>, j: int)
    ensures
        groups_from(keys, Seq::empty(), j) == Seq::<(usize, usize)>::empty(),
    decreases keys.len() - j,
{
    if !(j < 0 || j >= keys.len()) {
        reveal(Seq::filter);
        assert(Seq::<(usize, usize)>::empty().filter(src_is(keys[j])) =~= Seq::<(
            usize,
            usize,
        )>::empty());
        lemma_groups_from_empty(keys, j + 1);
        assert(groups_from(keys, Seq::empty(), j) =~= Seq::<(usize, usize)>::empty());
    }
}

proof fn lemma_ms_add_insert(
    x: Multiset<(usize, usize)>,
    y: Multiset<(usize, usize)>,
    e: (usize, usize),
)
    ensures
        x.insert(e).add(y) == x.add(y).insert(e),
        x.add(y.insert(e)) == x.add(y).insert(e),
{
    assert(x.insert(e).add(y) =~= x.add(y).insert(e));
    assert(x.add(y.insert(e)) =~= x.add(y).insert(e));
}

/// Appending an edge whose source sits at no position `>= j` leaves every
/// group from `j` on unchanged.
proof fn lemma_groups_from_push_absent(
    keys: Seq<usize>,
    es: Seq<(usize, usize)>,
    e: (usize, usize),
    j: int,
)
    requires
        forall|l: int| j <= l < keys.len() ==> #[trigger] keys[l] != e.0,
    ensures
        groups_from(keys, es.push(e), j) == groups_from(keys, es, j),
    decreases keys.len() - j,
{
    if !(j < 0 || j >= keys.len()) {
        es.lemma_filter_push(e, src_is(keys[j]));
        assert(!src_is(keys[j])(e));
        lemma_groups_from_push_absent(keys, es, e, j + 1);
    }
}

/// Appending an edge whose source sits at some position `>= j` adds exactly
/// that edge to the grouped multiset.
proof fn lemma_groups_from_push(
    keys: Seq<usize>,
    es: Seq<(usize, usize)>,
    e: (usize, usize),
    j: int,
)
    requires
        keys.no_duplicates(),
        0 <= j,
        exists|l: int| j <= l < keys.len() && #[trigger] keys[l] == e.0,
    ensures
        groups_from(keys, es.push(e), j).to_multiset() == groups_from(
            keys,
            es,
            j,
        ).to_multiset().insert(e),
    decreases keys.len() - j,
{
    broadcast use vstd::seq_lib::group_to_multiset_ensures;
    broadcast use vstd::seq_lib::lemma_multiset_commutative;

    let l0 = choose|l: int| j <= l < keys.len() && #[trigger] keys[l] == e.0;
    es.lemma_filter_push(e, src_is(keys[j]));
    let a = es.filter(src_is(keys[j]));
    let b = groups_from(keys, es, j + 1);
    assert(groups_from(keys, es, j) == a + b);
    if keys[j] == e.0 {
        assert(src_is(keys[j])(e));
        assert(groups_from(keys, es.push(e), j) == a.push(e) + groups_from(keys, es.push(e), j
            + 1));
        assert forall|l: int| j + 1 <= l < keys.len() implies #[trigger] keys[l] != e.0 by {
            assert(keys[l] != keys[j]);
        };
        lemma_groups_from_push_absent(keys, es, e, j + 1);
        assert((a.push(e) + b).to_multiset() == a.push(e).to_multiset().add(b.to_multiset()));
        assert(a.push(e).to_multiset() == a.to_multiset().insert(e));
        lemma_ms_add_insert(a.to_multiset(), b.to_multiset(), e);
        assert((a + b).to_multiset() == a.to_multiset().add(b.to_multiset()));
    } else {
        assert(!src_is(keys[j])(e));
        assert(groups_from(keys, es.push(e), j) == a + groups_from(keys, es.push(e), j + 1));
        assert(l0 >= j + 1);
        lemma_groups_from_push(keys, es, e, j + 1);
        let b2 = groups_from(keys, es.push(e), j + 1);
        assert((a + b2).to_multiset() == a.to_multiset().add(b2.to_multiset()));
        assert(b2.to_multiset() == b.to_multiset().insert(e));
        lemma_ms_add_insert(a.to_multiset(), b.to_multiset(), e);
        assert((a + b).to_multiset() == a.to_multiset().add(b.to_multiset()));
    }
}

/// Grouping the declared edges by their (declared) source nodes preserves
/// the multiset of edges.
proof fn lemma_groups_multiset(keys: Seq<usize>, es: Seq<(usize, usize)>)
    requires
        keys.no_duplicates(),
        forall|x: int| 0 <= x < es.len() ==> keys.contains((#[trigger] es[x]).0),
    ensures
        groups_from(keys, es, 0).to_multiset() == es.to_multiset(),
    decreases es.len(),
{
    broadcast use vstd::seq_lib::group_to_multiset_ensures;

    if es.len() == 0 {
        assert(es =~= Seq::<(usize, usize)>::empty());
        lemma_groups_from_empty(keys, 0);
        assert(groups_from(keys, es, 0).to_multiset() =~= es.to_multiset());
    } else {
        let es0 = es.drop_last();
        let e = es.last();
        assert(es =~= es0.push(e));
        assert forall|x: int| 0 <= x < es0.len() implies keys.contains((#[trigger] es0[x]).0) by {
            assert(es0[x] == es[x]);
        };
        lemma_groups_multiset(keys, es0);
        assert(keys.contains(e.0));
        lemma_groups_from_push(keys, es0, e, 0);
        assert(es0.push(e).to_multiset() == es0.to_multiset().insert(e));
    }
}

/// When every successor list is the selection of the declared edges leaving
/// its node, the stored pair lists from position `i` on concatenate to the
/// grouped selections.
proof fn lemma_pairs_from_equals_groups(g: AdjList, es: Seq<(usize, usize)>, i: int)
    requires
        0 <= i,
        g.key_seq().len() == g.node_count(),
        forall|i2: int|
            0 <= i2 < g.node_count() ==> #[trigger] g.pair_seq(i2) == es.filter(
                src_is(g.key_seq()[i2]),
            ),
    ensures
        g.pairs_from(i) == groups_from(g.key_seq(), es, i),
    decreases g.node_count() - i,
{
    if i < g.node_count() {
        lemma_pairs_from_equals_groups(g, es, i + 1);
    }
}

// ---------------------------------------------------------------------------
// The edge list characterized, and what follows from it.
// ---------------------------------------------------------------------------

/// `pairs_from(i)` holds exactly the pairs stored for positions `i` onward.
proof fn lemma_pairs_from_contains(g: AdjList, i: int, pr: (usize, usize))
    requires
        0 <= i,
    ensures
        g.pairs_from(i).contains(pr) <==> exists|i2: int, k: int|
            i <= i2 < g.node_count() && 0 <= k < g.pair_seq(i2).len() && #[trigger] g.pair_seq(
                i2,
            )[k] == pr,
    decreases g.node_count() - i,
{
    if i < g.node_count() {
        lemma_pairs_from_contains(g, i + 1, pr);
        let ps = g.pair_seq(i);
        let rest = g.pairs_from(i + 1);
        assert(g.pairs_from(i) == ps + rest);
        if g.pairs_from(i).contains(pr) {
            let w = choose|w: int| 0 <= w < g.pairs_from(i).len() && g.pairs_from(i)[w] == pr;
            if w < ps.len() {
                assert(g.pair_seq(i)[w] == pr);
            } else {
                assert(rest[w - ps.len()] == pr);
                assert(rest.contains(pr));
            }
        }
        if exists|i2: int, k: int|
            i <= i2 < g.node_count() && 0 <= k < g.pair_seq(i2).len() && #[trigger] g.pair_seq(
                i2,
            )[k] == pr {
            let (i2, k): (int, int) = choose|i2: int, k: int|
                i <= i2 < g.node_count() && 0 <= k < g.pair_seq(i2).len() && #[trigger] g.pair_seq(
                    i2,
                )[k] == pr;
            if i2 == i {
                assert(g.pairs_from(i)[k] == pr);
                assert(g.pairs_from(i).contains(pr));
            } else {
                assert(exists|i3: int, k3: int|
                    i + 1 <= i3 < g.node_count() && 0 <= k3 < g.pair_seq(i3).len()
                        && #[trigger] g.pair_seq(i3)[k3] == pr);
                assert(rest.contains(pr));
                let w = choose|w: int| 0 <= w < rest.len() && rest[w] == pr;
                assert(g.pairs_from(i)[ps.len() + w] == pr);
                assert(g.pairs_from(i).contains(pr));
            }
        }
    }
}

/// The edge list holds the pair `(a, b)` exactly when an edge from `a` to
/// `b` is stored.
pub proof fn lemma_edge_list_characterizes_edges(g: AdjList)
    requires
        g.wf(),
    ensures
        forall|a: usize, b: usize|
            #[trigger] g.edge_list().contains((a, b)) <==> g.edge_between(a, b),
{
    assert forall|a: usize, b: usize|
        #[trigger] g.edge_list().contains((a, b)) <==> g.edge_between(a, b) by {
        lemma_pairs_from_contains(g, 0, (a, b));
        if g.edge_list().contains((a, b)) {
            let (i2, k): (int, int) = choose|i2: int, k: int|
                0 <= i2 < g.node_count() && 0 <= k < g.pair_seq(i2).len() && #[trigger] g.pair_seq(
                    i2,
                )[k] == (a, b);
            assert(g.pair_seq(i2)[k] == (
                g.key_seq()[i2],
                g.key_seq()[g.succs(i2)[k] as int],
            ));
            assert(0 <= i2 < g.node_count() && 0 <= k < g.succs(i2).len() && g.key_seq()[i2] == a
                && g.key_seq()[(#[trigger] g.succs(i2)[k]) as int] == b);
        }
        if g.edge_between(a, b) {
            let (i2, k): (int, int) = choose|i2: int, k: int|
                0 <= i2 < g.node_count() && 0 <= k < g.succs(i2).len() && g.key_seq()[i2] == a
                    && g.key_seq()[(#[trigger] g.succs(i2)[k]) as int] == b;
            assert(g.pair_seq(i2)[k] == (a, b));
        }
    };
}

/// A self-loop is a cycle of length one.
pub proof fn lemma_self_loop_has_cycle(g: AdjList, a: usize)
    requires
        g.edge_between(a, a),
    ensures
        g.has_cycle(),
{
    let p = seq![a];
    assert(p[p.len() - 1] == a && p[0] == a);
    assert(g.is_cycle(p));
}

/// With no stored edges there is no cycle, whatever the node count.
pub proof fn lemma_no_edges_no_cycle(g: AdjList)
    requires
        g.wf(),
        g.edge_list().len() == 0,
    ensures
        !g.has_cycle(),
{
    lemma_edge_list_characterizes_edges(g);
    if g.has_cycle() {
        let p = choose|p: Seq<usize>| g.is_cycle(p);
        assert(g.edge_between(p[p.len() - 1], p[0]));
        assert(g.edge_list().contains((p[p.len() - 1], p[0])));
        assert(false);
    }
}

/// Whether a cycle exists depends only on which edges are stored, not on
/// the order in which the edge list presents them.
pub proof fn lemma_cycle_depends_on_edge_multiset(g1: AdjList, g2: AdjList)
    requires
        g1.wf(),
        g2.wf(),
        g1.edge_list().to_multiset() == g2.edge_list().to_multiset(),
    ensures
        g1.has_cycle() == g2.has_cycle(),
{
    broadcast use vstd::seq_lib::group_to_multiset_ensures;

    lemma_edge_list_characterizes_edges(g1);
    lemma_edge_list_characterizes_edges(g2);
    assert forall|a: usize, b: usize| #[trigger] g1.edge_between(a, b) <==> g2.edge_between(
        a,
        b,
    ) by {
        assert(g1.edge_list().contains((a, b)) <==> g1.edge_list().to_multiset().count((a, b))
            > 0);
        assert(g2.edge_list().contains((a, b)) <==> g2.edge_list().to_multiset().count((a, b))
            > 0);
    };
    if g1.has_cycle() {
        let p = choose|p: Seq<usize>| g1.is_cycle(p);
        assert forall|l: int| 0 <= l < p.len() - 1 implies g2.edge_between(
            #[trigger] p[l],
            p[l + 1],
        ) by {
            assert(g1.edge_between(p[l], p[l + 1]));
        };
        assert(g1.edge_between(p[p.len() - 1], p[0]));
        assert(g2.is_cycle(p));
    }
    if g2.has_cycle() {
        let p = choose|p: Seq<usize>| g2.is_cycle(p);
        assert forall|l: int| 0 <= l < p.len() - 1 implies g1.edge_between(
            #[trigger] p[l],
            p[l + 1],
        ) by {
            assert(g2.edge_between(p[l], p[l + 1]));
        };
        assert(g2.edge_between(p[p.len() - 1], p[0]));
        assert(g1.is_cycle(p));
    }
}

/// Decides whether the graph contains a directed cycle.
///
/// Iterative three-colour depth-first search: every node starts white; a
/// node turns grey when the walk enters it and black only once all of its
/// successors are fully explored.  An edge into a grey node is a back-edge
/// into the active path and proves a cycle; an edge into a black node is a
/// forward or cross edge and proves nothing.  Roots are taken in position
/// order until every node is black.
pub(crate) fn cycle_search(g: &AdjList) -> (r: bool)
    requires
        g.wf(),
    ensures
        r == g.has_cycle(),
{
    let n = g.keys.len();
    let mut color: Vec<Color> = Vec::new();
    let mut ci: usize = 0;
    while ci < n
        invariant
            ci <= n,
            color@.len() == ci,
            forall|x: int| 0 <= x < ci ==> (#[trigger] color@[x]) is White,
        decreases n - ci,
    {
        color.push(Color::White);
        ci += 1;
    }
    let ghost mut fin: Seq<int> = Seq::empty();
    let mut root: usize = 0;
    while root < n
        invariant
            g.wf(),
            n == g.node_count(),
            color@.len() == n,
            root <= n,
            forall|x: int| 0 <= x < root ==> (#[trigger] color@[x]) is Black,
            forall|x: int| 0 <= x < n ==> !((#[trigger] color@[x]) is Gray),
            done_closed(*g, color@, fin),
        decreases n - root,
    {
        let root_white = match color[root] {
            Color::White => true,
            _ => false,
        };
        if root_white {
            let mut stack: Vec<(usize, usize)> = Vec::new();
            let ghost col_before = color@;
            color[root] = Color::Gray;
            stack.push((root, 0));
            proof {
                let st = stack@;
                let cs = color@;
                assert(st.len() == 1 && st[0] == (root, 0usize));
                assert forall|x: int| 0 <= x < n implies ((#[trigger] cs[x]) is Gray <==> on_stack(
                    st,
                    x,
                )) by {
                    if x == root {
                        assert((st[0]).0 as int == x);
                    } else {
                        assert(cs[x] == col_before[x]);
                        if on_stack(st, x) {
                            let s = choose|s: int|
                                0 <= s < st.len() && (#[trigger] st[s]).0 as int == x;
                            assert(s == 0);
                            assert(false);
                        }
                    }
                };
                assert forall|s: int| 0 <= s < st.len() implies #[trigger] examined_black_at(
                    *g,
                    cs,
                    st,
                    s,
                ) by {
                    assert(st[s].1 == 0);
                };
                assert forall|x: int| 0 <= x < n implies ((#[trigger] cs[x]) is Black
                    <==> fin.contains(x)) by {
                    assert(cs[x] is Black <==> col_before[x] is Black);
                };
                assert(dfs_inv(*g, color@, fin, stack@));
            }
            while stack.len() != 0
                invariant
                    g.wf(),
                    n == g.node_count(),
                    color@.len() == n,
                    root < n,
                    dfs_inv(*g, color@, fin, stack@),
                    stack@.len() > 0 ==> stack@[0].0 == root,
                    !((color@[root as int]) is White),
                    forall|x: int| 0 <= x < root ==> (#[trigger] color@[x]) is Black,
                decreases count_white(color@), rem_sum(*g, stack@), stack@.len(),
            {
                let ghost st0 = stack@;
                let ghost col0 = color@;
                let top = stack.pop().unwrap();
                let u = top.0;
                let k = top.1;
                proof {
                    assert(st0[st0.len() - 1] == (u, k));
                    assert(u < n && k <= g.succs(u as int).len());
                    assert(stack@ =~= st0.drop_last());
                }
                if k < g.adj[u].len() {
                    let v = g.adj[u][k];
                    proof {
                        assert(g.succs(u as int)[k as int] == v);
                        assert((v as int) < n);
                    }
                    match color[v] {
                        Color::Gray => {
                            proof {
                                let s = choose|s: int|
                                    0 <= s < st0.len() && (#[trigger] st0[s]).0 as int == v as int;
                                let q = Seq::new(
                                    (st0.len() - s) as nat,
                                    |l: int| (st0[s + l]).0 as int,
                                );
                                assert forall|l: int| 0 <= l < q.len() implies 0 <= #[trigger] q[l]
                                    < g.node_count() by {
                                    assert((st0[s + l]).0 < g.node_count());
                                };
                                assert forall|l: int| 0 <= l < q.len() - 1 implies idx_edge(
                                    *g,
                                    #[trigger] q[l],
                                    q[l + 1],
                                ) by {
                                    let i2 = s + l;
                                    assert((st0[i2]).1 >= 1 && g.succs(st0[i2].0 as int)[st0[i2].1
                                        - 1] == st0[i2 + 1].0);
                                    assert((st0[i2]).1 <= g.succs(st0[i2].0 as int).len());
                                    assert((#[trigger] g.succs(q[l])[st0[i2].1 - 1]) as int == q[l
                                        + 1]);
                                };
                                assert(q[q.len() - 1] == u as int);
                                assert(q[0] == v as int);
                                assert((#[trigger] g.succs(u as int)[k as int]) as int
                                    == v as int);
                                assert(idx_edge(*g, u as int, v as int));
                                assert(is_idx_cycle(*g, q));
                                lemma_idx_cycle_gives_cycle(*g, q);
                            }
                            return true;
                        },
                        Color::Black => {
                            stack.push((u, k + 1));
                            proof {
                                let st1 = stack@;
                                assert(st1.drop_last() =~= st0.drop_last());
                                assert(st1.len() == st0.len());
                                assert(st1[st1.len() - 1] == (u, (k + 1) as usize));
                                assert forall|s: int| 0 <= s < st1.len() - 1 implies st1[s]
                                    == st0[s] by {};
                                assert forall|s: int| 0 <= s < st1.len() implies (#[trigger] st1[s]).0
                                    == st0[s].0 by {};
                                assert(frames_wf(*g, st1));
                                assert forall|s: int| 0 <= s < st1.len() - 1 implies (
                                #[trigger] st1[s]).1 >= 1 && g.succs(st1[s].0 as int)[st1[s].1 - 1]
                                    == st1[s + 1].0 by {
                                    assert(st1[s] == st0[s]);
                                    assert((st0[s]).1 >= 1 && g.succs(st0[s].0 as int)[st0[s].1
                                        - 1] == st0[s + 1].0);
                                };
                                assert(frames_distinct(st1));
                                lemma_on_stack_same_nodes(st0, st1);
                                assert(gray_iff_on_stack(*g, col0, st1));
                                assert forall|s: int| 0 <= s < st1.len() implies
                                    #[trigger] examined_black_at(*g, col0, st1, s) by {
                                    if s < st1.len() - 1 {
                                        assert(st1[s] == st0[s]);
                                        assert(examined_black_at(*g, col0, st0, s));
                                        assert forall|c: int|
                                            0 <= c < (if s == st1.len() - 1 {
                                                st1[s].1 as int
                                            } else {
                                                st1[s].1 - 1
                                            }) implies col0[(#[trigger] g.succs(
                                            st1[s].0 as int,
                                        )[c]) as int] is Black by {};
                                    } else {
                                        assert(examined_black_at(*g, col0, st0, s));
                                        assert forall|c: int| 0 <= c < k + 1 implies col0[(
                                        #[trigger] g.succs(u as int)[c]) as int] is Black by {
                                            if c < k {
                                                assert(st0[s].1 == k);
                                            } else {
                                                assert(g.succs(u as int)[c] == v);
                                            }
                                        };
                                    }
                                };
                                assert(rem_sum(*g, st1) == rem_sum(*g, st0.drop_last()) + frame_rem(
                                    *g,
                                    (u, (k + 1) as usize),
                                ));
                                assert(rem_sum(*g, st0) == rem_sum(*g, st0.drop_last()) + frame_rem(
                                    *g,
                                    (u, k),
                                ));
                                assert(frame_rem(*g, (u, (k + 1) as usize)) < frame_rem(*g, (u, k)));
                                assert(dfs_inv(*g, color@, fin, stack@));
                            }
                        },
                        Color::White => {
                            stack.push((u, k + 1));
                            color[v] = Color::Gray;
                            stack.push((v, 0));
                            proof {
                                let st2 = stack@;
                                let col1 = color@;
                                let st1 = st0.drop_last().push((u, (k + 1) as usize));
                                assert(st2 =~= st1.push((v, 0usize)));
                                assert(st2.len() == st0.len() + 1);
                                assert forall|s: int| 0 <= s < st0.len() - 1 implies st2[s]
                                    == st0[s] by {};
                                assert(st2[st0.len() - 1] == (u, (k + 1) as usize));
                                assert(st2[st0.len() as int] == (v, 0usize));
                                assert forall|s: int| 0 <= s < st0.len() implies (#[trigger] st2[s]).0
                                    == st0[s].0 by {};
                                // v was white, so it is on no old frame
                                assert forall|s: int| 0 <= s < st0.len() implies (#[trigger] st0[s]).0
                                    != v by {
                                    if st0[s].0 == v {
                                        assert(on_stack(st0, v as int));
                                        assert(col0[v as int] is Gray);
                                        assert(false);
                                    }
                                };
                                assert(frames_wf(*g, st2));
                                assert forall|s: int| 0 <= s < st2.len() - 1 implies (
                                #[trigger] st2[s]).1 >= 1 && g.succs(st2[s].0 as int)[st2[s].1 - 1]
                                    == st2[s + 1].0 by {
                                    if s < st0.len() - 1 {
                                        assert(st2[s] == st0[s]);
                                        assert((st0[s]).1 >= 1 && g.succs(st0[s].0 as int)[st0[s].1
                                            - 1] == st0[s + 1].0);
                                        if s + 1 < st0.len() - 1 {
                                            assert(st2[s + 1] == st0[s + 1]);
                                        } else {
                                            assert(st2[s + 1].0 == u);
                                        }
                                    } else {
                                        assert(s == st0.len() - 1);
                                        assert(st2[s] == (u, (k + 1) as usize));
                                        assert(g.succs(u as int)[k as int] == v);
                                    }
                                };
                                assert(frames_distinct(st2));
                                assert forall|x: int| 0 <= x < n implies ((#[trigger] col1[x]) is Gray
                                    <==> on_stack(st2, x)) by {
                                    if x == v as int {
                                        assert((st2[st0.len() as int]).0 as int == x);
                                    } else {
                                        assert(col1[x] == col0[x]);
                                        if on_stack(st0, x) {
                                            let s = choose|s: int|
                                                0 <= s < st0.len() && (#[trigger] st0[s]).0 as int
                                                    == x;
                                            assert((st2[s]).0 as int == x);
                                            assert(on_stack(st2, x));
                                        }
                                        if on_stack(st2, x) {
                                            let s = choose|s: int|
                                                0 <= s < st2.len() && (#[trigger] st2[s]).0 as int
                                                    == x;
                                            assert(s < st0.len());
                                            assert((st0[s]).0 as int == x);
                                            assert(on_stack(st0, x));
                                        }
                                    }
                                };
                                assert forall|s: int| 0 <= s < st2.len() implies
                                    #[trigger] examined_black_at(*g, col1, st2, s) by {
                                    assert forall|y: int|
                                        0 <= y < n && (#[trigger] col0[y]) is Black implies col1[y] is Black by {
                                        assert(y != v as int);
                                    };
                                    if s < st0.len() - 1 {
                                        assert(st2[s] == st0[s]);
                                        assert(examined_black_at(*g, col0, st0, s));
                                        assert forall|c: int| 0 <= c < st2[s].1 - 1 implies col1[(
                                        #[trigger] g.succs(st2[s].0 as int)[c]) as int] is Black by {
                                            assert(col0[(g.succs(st0[s].0 as int)[c]) as int] is Black);
                                        };
                                    } else if s == st0.len() - 1 {
                                        assert(examined_black_at(*g, col0, st0, s));
                                        assert forall|c: int| 0 <= c < st2[s].1 - 1 implies col1[(
                                        #[trigger] g.succs(st2[s].0 as int)[c]) as int] is Black by {
                                            assert(st0[s].1 == k);
                                            assert(col0[(g.succs(u as int)[c]) as int] is Black);
                                        };
                                    } else {
                                        assert(st2[s].1 == 0);
                                    }
                                };
                                assert forall|x: int| 0 <= x < n implies ((#[trigger] col1[x]) is Black
                                    <==> fin.contains(x)) by {
                                    if x == v as int {
                                        assert(!(col0[x] is Black));
                                    } else {
                                        assert(col1[x] == col0[x]);
                                    }
                                };
                                lemma_count_white_update(col0, v as int, Color::Gray);
                                assert(count_white(col1) < count_white(col0));
                                assert(dfs_inv(*g, color@, fin, stack@));
                            }
                        },
                    }
                } else {
                    color[u] = Color::Black;
                    proof {
                        let ghost fin0 = fin;
                        fin = fin.push(u as int);
                        let st1 = stack@;
                        let col1 = color@;
                        assert(k == g.succs(u as int).len());
                        assert forall|s: int| 0 <= s < st1.len() implies st1[s] == st0[s] by {};
                        // u is on no remaining frame
                        assert(on_stack(st0, u as int)) by {
                            assert((st0[st0.len() - 1]).0 as int == u as int);
                        };
                        assert forall|s: int| 0 <= s < st1.len() implies (#[trigger] st1[s]).0
                            != u by {
                            assert(st0[s].0 != st0[st0.len() - 1].0);
                        };
                        assert(frames_wf(*g, st1));
                        assert forall|s: int| 0 <= s < st1.len() - 1 implies (#[trigger] st1[s]).1
                            >= 1 && g.succs(st1[s].0 as int)[st1[s].1 - 1] == st1[s + 1].0 by {
                            assert(st1[s] == st0[s] && st1[s + 1] == st0[s + 1]);
                            assert((st0[s]).1 >= 1 && g.succs(st0[s].0 as int)[st0[s].1 - 1]
                                == st0[s + 1].0);
                        };
                        assert(frames_distinct(st1));
                        assert forall|x: int| 0 <= x < n implies ((#[trigger] col1[x]) is Gray
                            <==> on_stack(st1, x)) by {
                            if x == u as int {
                                if on_stack(st1, x) {
                                    let s = choose|s: int|
                                        0 <= s < st1.len() && (#[trigger] st1[s]).0 as int == x;
                                    assert(false);
                                }
                            } else {
                                assert(col1[x] == col0[x]);
                                if on_stack(st0, x) {
                                    let s = choose|s: int|
                                        0 <= s < st0.len() && (#[trigger] st0[s]).0 as int == x;
                                    assert(s < st0.len() - 1);
                                    assert((st1[s]).0 as int == x);
                                }
                                if on_stack(st1, x) {
                                    let s = choose|s: int|
                                        0 <= s < st1.len() && (#[trigger] st1[s]).0 as int == x;
                                    assert((st0[s]).0 as int == x);
                                }
                            }
                        };
                        assert forall|s: int| 0 <= s < st1.len() implies
                            #[trigger] examined_black_at(*g, col1, st1, s) by {
                            assert forall|y: int|
                                0 <= y < n && (#[trigger] col0[y]) is Black implies col1[y] is Black by {};
                            assert(examined_black_at(*g, col0, st0, s));
                            if s == st1.len() - 1 {
                                // newly exposed top: its pending successor was u, now black
                                assert((st0[s]).1 >= 1 && g.succs(st0[s].0 as int)[st0[s].1 - 1]
                                    == st0[s + 1].0);
                                assert(st0[s + 1].0 == u);
                                assert forall|c: int| 0 <= c < st1[s].1 implies col1[(
                                #[trigger] g.succs(st1[s].0 as int)[c]) as int] is Black by {
                                    if c < st1[s].1 - 1 {
                                        assert(col0[(g.succs(st0[s].0 as int)[c]) as int] is Black);
                                    } else {
                                        assert(c == st0[s].1 - 1);
                                        assert(g.succs(st1[s].0 as int)[c] == u);
                                    }
                                };
                            } else {
                                assert(st1[s] == st0[s]);
                                assert forall|c: int| 0 <= c < st1[s].1 - 1 implies col1[(
                                #[trigger] g.succs(st1[s].0 as int)[c]) as int] is Black by {
                                    assert(col0[(g.succs(st0[s].0 as int)[c]) as int] is Black);
                                };
                            }
                        };
                        // the finish order stays closed
                        assert(!fin0.contains(u as int)) by {
                            assert(!(col0[u as int] is Black));
                        };
                        assert forall|p1: int, p2: int| 0 <= p1 < p2 < fin.len() implies fin[p1]
                            != fin[p2] by {
                            if p2 < fin0.len() {
                                assert(fin0.no_duplicates());
                                assert(fin[p1] == fin0[p1] && fin[p2] == fin0[p2]);
                            } else {
                                assert(fin[p2] == u as int);
                                assert(fin[p1] == fin0[p1]);
                                if fin0[p1] == u as int {
                                    assert(fin0.contains(u as int));
                                    assert(false);
                                }
                            }
                        };
                        assert(fin.no_duplicates());
                        assert forall|x: int| 0 <= x < n implies ((#[trigger] col1[x]) is Black
                            <==> fin.contains(x)) by {
                            if x == u as int {
                                assert(fin[fin.len() - 1] == x);
                            } else {
                                assert(col1[x] == col0[x]);
                                if fin0.contains(x) {
                                    let w = choose|w: int| 0 <= w < fin0.len() && fin0[w] == x;
                                    assert(fin[w] == x);
                                }
                                if fin.contains(x) {
                                    let w = choose|w: int| 0 <= w < fin.len() && fin[w] == x;
                                    assert(w < fin0.len());
                                    assert(fin0[w] == x);
                                }
                            }
                        };
                        assert forall|p: int| 0 <= p < fin.len() implies succs_before(*g, fin, p) by {
                            if p < fin0.len() {
                                assert(succs_before(*g, fin0, p));
                                assert(fin.take(p) =~= fin0.take(p));
                                assert(fin[p] == fin0[p]);
                                assert forall|c: int| 0 <= c < g.succs(fin[p]).len() implies fin.take(
                                    p,
                                ).contains((#[trigger] g.succs(fin[p])[c]) as int) by {
                                    assert(fin0.take(p).contains((g.succs(fin0[p])[c]) as int));
                                };
                            } else {
                                assert(fin[p] == u as int);
                                assert(fin.take(p) =~= fin0);
                                assert(examined_black_at(*g, col0, st0, st0.len() - 1));
                                assert forall|c: int| 0 <= c < g.succs(fin[p]).len() implies fin.take(
                                    p,
                                ).contains((#[trigger] g.succs(fin[p])[c]) as int) by {
                                    assert(col0[(g.succs(u as int)[c]) as int] is Black);
                                    assert(fin0.contains((g.succs(u as int)[c]) as int));
                                };
                            }
                        };
                        // termination measures
                        lemma_count_white_update(col0, u as int, Color::Black);
                        assert(count_white(col1) == count_white(col0));
                        assert(rem_sum(*g, st0) == rem_sum(*g, st1) + frame_rem(*g, (u, k)));
                        assert(frame_rem(*g, (u, k)) == 0);
                        assert(dfs_inv(*g, color@, fin, stack@));
                    }
                }
            }
            proof {
                assert forall|x: int| 0 <= x < n implies !((#[trigger] color@[x]) is Gray) by {
                    if color@[x] is Gray {
                        assert(on_stack(stack@, x));
                        let s = choose|s: int|
                            0 <= s < stack@.len() && (#[trigger] stack@[s]).0 as int == x;
                        assert(false);
                    }
                };
                assert(color@[root as int] is Black);
            }
        }
        root += 1;
    }
    proof {
        lemma_all_black_acyclic(*g, color@, fin);
    }
    false
}

} // verus!
