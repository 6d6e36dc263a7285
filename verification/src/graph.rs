//! A directed graph over an arbitrary vertex type `V`.
//!
//! The graph owns a set of vertices and a set of directed edges between
//! them.  It supports insertion and removal of vertices and edges,
//! membership queries, neighbor enumeration, and reachability testing.
//! The graph is closed: every edge endpoint is a vertex of the graph, so
//! removing a vertex also removes every edge touching it.
//!
//! Vertices are stored once, in an arena, and edges are pairs of arena
//! indices; a vertex is identified by value equality.

use vstd::pervasive::cloned;
use vstd::pervasive::VecAdditionalExecFns;
use vstd::prelude::*;
use vstd::std_specs::cmp::PartialEqSpec;

verus! {

/// What a sequence contains after a push: its old members, and the
/// pushed element.
proof fn lemma_push_contains<A>(s: Seq<A>, x: A)
    ensures
        forall|y: A| #[trigger] s.push(x).contains(y) <==> s.contains(y) || y == x,
{
    assert forall|y: A| #[trigger] s.push(x).contains(y) implies s.contains(y) || y == x by {
        let m = choose|m: int| 0 <= m < s.push(x).len() && s.push(x)[m] == y;
        if m < s.len() {
            assert(s[m] == y);
        }
    }
    assert forall|y: A| s.contains(y) || y == x implies #[trigger] s.push(x).contains(y) by {
        if y == x {
            assert(s.push(x)[s.len() as int] == y);
        } else {
            let m = choose|m: int| 0 <= m < s.len() && s[m] == y;
            assert(s.push(x)[m] == y);
        }
    }
}

/// The number of `false` entries in `s`: how many vertices a search
/// has not yet visited.
spec fn unvisited_count(s: Seq<bool>) -> int
    decreases s.len(),
{
    if s.len() == 0 {
        0
    } else {
        unvisited_count(s.drop_last()) + if s.last() {
            0int
        } else {
            1int
        }
    }
}

proof fn lemma_unvisited_count_nonneg(s: Seq<bool>)
    ensures
        unvisited_count(s) >= 0,
    decreases s.len(),
{
    if s.len() > 0 {
        lemma_unvisited_count_nonneg(s.drop_last());
    }
}

proof fn lemma_unvisited_count_update(s: Seq<bool>, j: int)
    requires
        0 <= j < s.len(),
        !s[j],
    ensures
        unvisited_count(s.update(j, true)) == unvisited_count(s) - 1,
    decreases s.len(),
{
    let t = s.update(j, true);
    if j == s.len() - 1 {
        assert(t.drop_last() =~= s.drop_last());
    } else {
        assert(t.drop_last() =~= s.drop_last().update(j, true));
        lemma_unvisited_count_update(s.drop_last(), j);
    }
}

/// Holds when the executable `==` of `V` agrees with logical equality:
/// comparing two values returns true exactly when they are equal.
pub open spec fn eq_reflects_equality<V: PartialEq>() -> bool {
    &&& V::obeys_eq_spec()
    &&& forall|x: V, y: V| #[trigger] x.eq_spec(&y) <==> x == y
}

/// Holds when cloning a `V` yields a value equal to the original.
pub open spec fn clone_respects_equality<V: Clone>() -> bool {
    forall|x: V, y: V| #[trigger] cloned::<V>(x, y) ==> x == y
}

/// A mutable directed graph with vertices of type `V`.
///
/// `verts` is an arena holding each vertex value exactly once; `edges`
/// holds each directed edge exactly once as a pair of arena indices
/// `(source, target)`.
pub struct Graph<V> {
    verts: Vec<V>,
    edges: Vec<(usize, usize)>,
}

impl<V> Graph<V> {
    /// Well-formedness of the representation: edge endpoints are valid
    /// arena indices, vertex values are pairwise distinct, and no edge
    /// is recorded twice.
    pub closed spec fn wf(&self) -> bool {
        &&& forall|k: int|
            0 <= k < self.edges@.len() ==> (#[trigger] self.edges@[k]).0 < self.verts@.len()
                && self.edges@[k].1 < self.verts@.len()
        &&& forall|i: int, j: int|
            0 <= i < self.verts@.len() && 0 <= j < self.verts@.len() && i != j
                ==> #[trigger] self.verts@[i] != #[trigger] self.verts@[j]
        &&& self.edges@.no_duplicates()
    }

    /// `u` is a vertex of the graph.
    pub closed spec fn spec_contains_vertex(&self, u: V) -> bool {
        self.verts@.contains(u)
    }

    /// The directed edge `u -> v` is in the graph.
    pub closed spec fn spec_contains_edge(&self, u: V, v: V) -> bool {
        exists|k: int|
            0 <= k < self.edges@.len() && self.verts@[(#[trigger] self.edges@[k]).0 as int] == u
                && self.verts@[self.edges@[k].1 as int] == v
    }

    /// `p` is a directed path from `u` to `v`: a nonempty chain of
    /// vertices beginning at `u` and ending at `v` in which each
    /// consecutive pair is an edge of the graph.
    pub open spec fn is_path(&self, p: Seq<V>, u: V, v: V) -> bool {
        &&& p.len() >= 1
        &&& p.first() == u
        &&& p.last() == v
        &&& forall|m: int| 0 <= m < p.len() - 1 ==> self.spec_contains_edge(#[trigger] p[m], p[m + 1])
    }

    /// `v` can be reached from `u` by following zero or more edges.
    pub open spec fn spec_reachable(&self, u: V, v: V) -> bool {
        exists|p: Seq<V>| self.is_path(p, u, v)
    }

    /// `i` is a valid arena index.
    spec fn inode(&self, i: usize) -> bool {
        i < self.verts@.len()
    }

    /// The edge list links arena index `i` to arena index `j`.
    spec fn iedge(&self, i: usize, j: usize) -> bool {
        &&& self.inode(i)
        &&& self.inode(j)
        &&& self.edges@.contains((i, j))
    }

    /// `p` is a chain of arena indices from `i` to `j` along edges.
    spec fn ipath(&self, p: Seq<usize>, i: usize, j: usize) -> bool {
        &&& p.len() >= 1
        &&& p.first() == i
        &&& p.last() == j
        &&& forall|m: int| 0 <= m < p.len() ==> self.inode(#[trigger] p[m])
        &&& forall|m: int| 0 <= m < p.len() - 1 ==> self.iedge(#[trigger] p[m], p[m + 1])
    }

    /// Arena index `j` is reachable from arena index `i`.
    spec fn ireach(&self, i: usize, j: usize) -> bool {
        exists|p: Seq<usize>| self.ipath(p, i, j)
    }

    /// The arena index holding the vertex value `w`.
    spec fn spec_index_of(&self, w: V) -> usize {
        choose|i: usize| self.inode(i) && self.verts@[i as int] == w
    }

    /// How `insert_vertex(v)` changes the observable state.
    pub open spec fn insert_vertex_rel(pre: Self, post: Self, v: V) -> bool {
        &&& forall|w: V|
            #[trigger] post.spec_contains_vertex(w) <==> pre.spec_contains_vertex(w) || w == v
        &&& forall|a: V, b: V|
            #[trigger] post.spec_contains_edge(a, b) <==> pre.spec_contains_edge(a, b)
    }

    /// How `insert_edge(u, v)` changes the observable state.
    pub open spec fn insert_edge_rel(pre: Self, post: Self, u: V, v: V) -> bool {
        &&& forall|w: V|
            #[trigger] post.spec_contains_vertex(w) <==> pre.spec_contains_vertex(w) || w == u
                || w == v
        &&& forall|a: V, b: V|
            #[trigger] post.spec_contains_edge(a, b) <==> pre.spec_contains_edge(a, b) || (a == u
                && b == v)
    }

    /// How `remove_edge(u, v)` changes the observable state.
    pub open spec fn remove_edge_rel(pre: Self, post: Self, u: V, v: V) -> bool {
        &&& forall|w: V|
            #[trigger] post.spec_contains_vertex(w) <==> pre.spec_contains_vertex(w)
        &&& forall|a: V, b: V|
            #[trigger] post.spec_contains_edge(a, b) <==> pre.spec_contains_edge(a, b) && !(a == u
                && b == v)
    }

    /// How `remove_vertex(u)` changes the observable state.
    pub open spec fn remove_vertex_rel(pre: Self, post: Self, u: V) -> bool {
        &&& forall|w: V|
            #[trigger] post.spec_contains_vertex(w) <==> pre.spec_contains_vertex(w) && w != u
        &&& forall|a: V, b: V|
            #[trigger] post.spec_contains_edge(a, b) <==> pre.spec_contains_edge(a, b) && a != u
                && b != u
    }
}

impl<V> View for Graph<V> {
    type V = Map<V, Set<V>>;

    /// The abstract state: a map from each vertex to its set of
    /// out-neighbors.
    open spec fn view(&self) -> Map<V, Set<V>> {
        Map::new(
            |u: V| self.spec_contains_vertex(u),
            |u: V| Set::new(|v: V| self.spec_contains_edge(u, v)),
        )
    }
}

impl<V: PartialEq> Graph<V> {
    /// Creates an empty graph: no vertices, no edges.
    pub fn new() -> (g: Graph<V>)
        ensures
            g.wf(),
            forall|w: V| !g.spec_contains_vertex(w),
            forall|a: V, b: V| !g.spec_contains_edge(a, b),
    {
        Graph { verts: Vec::new(), edges: Vec::new() }
    }

    /// Returns the arena index of `x`, or `None` if `x` is not a vertex.
    fn index_of(&self, x: &V) -> (r: Option<usize>)
        requires
            eq_reflects_equality::<V>(),
        ensures
            match r {
                Some(i) => i < self.verts@.len() && self.verts@[i as int] == *x,
                None => !self.spec_contains_vertex(*x),
            },
    {
        let mut i: usize = 0;
        while i < self.verts.len()
            invariant
                i <= self.verts@.len(),
                eq_reflects_equality::<V>(),
                forall|k: int| 0 <= k < i ==> self.verts@[k] != *x,
            decreases self.verts@.len() - i,
        {
            if self.verts[i] == *x {
                return Some(i);
            }
            i += 1;
        }
        None
    }

    /// Adds `x` to the arena if it is not already a vertex and returns
    /// its index.  Edges are untouched.
    fn ensure_vertex(&mut self, x: V) -> (i: usize)
        requires
            old(self).wf(),
            eq_reflects_equality::<V>(),
        ensures
            final(self).wf(),
            i < final(self).verts@.len(),
            final(self).verts@[i as int] == x,
            final(self).edges@ == old(self).edges@,
            old(self).verts@.len() <= final(self).verts@.len(),
            forall|k: int|
                0 <= k < old(self).verts@.len() ==> final(self).verts@[k] == old(self).verts@[k],
            forall|w: V|
                #[trigger] final(self).spec_contains_vertex(w) <==> old(self).spec_contains_vertex(
                    w,
                ) || w == x,
            forall|a: V, b: V|
                #[trigger] final(self).spec_contains_edge(a, b) <==> old(self).spec_contains_edge(
                    a,
                    b,
                ),
    {
        let ghost pre = *self;
        match self.index_of(&x) {
            Some(i) => {
                proof {
                    assert(self.verts@[i as int] == x);
                    assert forall|w: V| #[trigger]
                        self.spec_contains_vertex(w) <==> pre.spec_contains_vertex(w) || w
                            == x by {
                        if w == x {
                            assert(self.verts@.contains(x));
                        }
                    }
                }
                i
            },
            None => {
                let i = self.verts.len();
                self.verts.push(x);
                proof {
                    assert(self.verts@ == pre.verts@.push(x));
                    assert forall|w: V| #[trigger]
                        self.spec_contains_vertex(w) implies pre.spec_contains_vertex(w) || w
                        == x by {
                        let k = choose|k: int|
                            0 <= k < self.verts@.len() && self.verts@[k] == w;
                        if k < pre.verts@.len() {
                            assert(pre.verts@[k] == w);
                        }
                    }
                    assert forall|w: V|
                        pre.spec_contains_vertex(w) || w == x implies #[trigger] self
                            .spec_contains_vertex(w) by {
                        if w == x {
                            assert(self.verts@[i as int] == w);
                        } else {
                            let k = choose|k: int|
                                0 <= k < pre.verts@.len() && pre.verts@[k] == w;
                            assert(self.verts@[k] == w);
                        }
                    }
                    assert forall|a: V, b: V| #[trigger]
                        self.spec_contains_edge(a, b) <==> pre.spec_contains_edge(a, b) by {
                        assert forall|k: int|
                            0 <= k < self.edges@.len() implies (
                        self.verts@[(#[trigger] self.edges@[k]).0 as int] == pre.verts@[self
                            .edges@[k].0 as int] && self.verts@[self.edges@[k].1 as int]
                            == pre.verts@[self.edges@[k].1 as int]) by {
                            assert(pre.edges@[k].0 < pre.verts@.len());
                        }
                    }
                    assert forall|p: int, q: int|
                        0 <= p < self.verts@.len() && 0 <= q < self.verts@.len() && p
                            != q implies #[trigger] self.verts@[p] != #[trigger] self
                        .verts@[q] by {
                        if p < pre.verts@.len() && q < pre.verts@.len() {
                        } else if p == i as int {
                            assert(!pre.verts@.contains(x));
                            assert(pre.verts@[q] != x);
                        } else {
                            assert(!pre.verts@.contains(x));
                            assert(pre.verts@[p] != x);
                        }
                    }
                }
                i
            },
        }
    }

    /// Inserts `v` as a vertex.  If `v` is already present nothing
    /// changes; edges are never affected.  Afterwards `v` is a vertex
    /// of the graph.
    pub fn insert_vertex(&mut self, v: V)
        requires
            old(self).wf(),
            eq_reflects_equality::<V>(),
        ensures
            final(self).wf(),
            Self::insert_vertex_rel(*old(self), *final(self), v),
            final(self).spec_contains_vertex(v),
    {
        let _ = self.ensure_vertex(v);
    }

    /// Whether the edge list holds the index pair `(i, j)`.
    fn has_arc(&self, i: usize, j: usize) -> (r: bool)
        ensures
            r == self.edges@.contains((i, j)),
    {
        let mut k: usize = 0;
        while k < self.edges.len()
            invariant
                k <= self.edges@.len(),
                forall|m: int| 0 <= m < k ==> self.edges@[m] != (i, j),
            decreases self.edges@.len() - k,
        {
            let (a, b) = self.edges[k];
            if a == i && b == j {
                proof {
                    assert(self.edges@[k as int] == (i, j));
                }
                return true;
            }
            k += 1;
        }
        false
    }

    /// Inserts the directed edge `u -> v`, first inserting `u` and `v`
    /// as vertices if they are new.  Inserting an edge twice has no
    /// further effect.  Afterwards `u -> v` is an edge and both
    /// endpoints are vertices of the graph.
    pub fn insert_edge(&mut self, u: V, v: V)
        requires
            old(self).wf(),
            eq_reflects_equality::<V>(),
        ensures
            final(self).wf(),
            Self::insert_edge_rel(*old(self), *final(self), u, v),
            final(self).spec_contains_edge(u, v),
            final(self).spec_contains_vertex(u),
            final(self).spec_contains_vertex(v),
    {
        let ghost pre = *self;
        let iu = self.ensure_vertex(u);
        let ghost mid1 = *self;
        let iv = self.ensure_vertex(v);
        let ghost mid2 = *self;
        proof {
            assert(self.verts@[iu as int] == u);
            assert(self.verts@[iv as int] == v);
        }
        if !self.has_arc(iu, iv) {
            self.edges.push((iu, iv));
            proof {
                assert(self.edges@ == mid2.edges@.push((iu, iv)));
                assert forall|a: V, b: V| #[trigger]
                    self.spec_contains_edge(a, b) implies mid2.spec_contains_edge(a, b) || (a == u
                    && b == v) by {
                    let k = choose|k: int|
                        0 <= k < self.edges@.len() && self.verts@[(#[trigger] self.edges@[k]).0
                            as int] == a && self.verts@[self.edges@[k].1 as int] == b;
                    if k < mid2.edges@.len() {
                        assert(mid2.edges@[k] == self.edges@[k]);
                    } else {
                        assert(self.edges@[k] == (iu, iv));
                    }
                }
                assert forall|a: V, b: V|
                    mid2.spec_contains_edge(a, b) || (a == u && b == v) implies #[trigger] self
                        .spec_contains_edge(a, b) by {
                    if mid2.spec_contains_edge(a, b) {
                        let k = choose|k: int|
                            0 <= k < mid2.edges@.len() && mid2.verts@[(#[trigger] mid2.edges@[k]).0
                                as int] == a && mid2.verts@[mid2.edges@[k].1 as int] == b;
                        assert(self.edges@[k] == mid2.edges@[k]);
                    } else {
                        let k = mid2.edges@.len() as int;
                        assert(self.edges@[k] == (iu, iv));
                    }
                }
                let k = mid2.edges@.len() as int;
                assert(self.edges@[k] == (iu, iv));
                assert(self.verts@[(self.edges@[k]).0 as int] == u);
                assert(self.verts@[(self.edges@[k]).1 as int] == v);
                assert(self.spec_contains_edge(u, v));
            }
        } else {
            proof {
                let k = choose|k: int|
                    0 <= k < self.edges@.len() && #[trigger] self.edges@[k] == (iu, iv);
                assert(self.verts@[(self.edges@[k]).0 as int] == u);
                assert(self.verts@[(self.edges@[k]).1 as int] == v);
                assert(self.spec_contains_edge(u, v));
            }
        }
        proof {
            assert forall|w: V| #[trigger]
                self.spec_contains_vertex(w) <==> pre.spec_contains_vertex(w) || w == u || w
                    == v by {
                assert(self.verts@ == mid2.verts@);
                assert(mid2.spec_contains_vertex(w) <==> mid1.spec_contains_vertex(w) || w == v);
                assert(self.spec_contains_vertex(w) <==> mid1.spec_contains_vertex(w) || w == v);
                assert(mid1.spec_contains_vertex(w) <==> pre.spec_contains_vertex(w) || w == u);
            }
            assert forall|a: V, b: V| #[trigger]
                self.spec_contains_edge(a, b) <==> pre.spec_contains_edge(a, b) || (a == u && b
                    == v) by {
                assert(mid2.spec_contains_edge(a, b) <==> mid1.spec_contains_edge(a, b));
                assert(mid1.spec_contains_edge(a, b) <==> pre.spec_contains_edge(a, b));
            }
        }
    }

    /// Returns the position of the index pair `(i, j)` in the edge
    /// list, if present.
    fn arc_position(&self, i: usize, j: usize) -> (r: Option<usize>)
        ensures
            match r {
                Some(k) => k < self.edges@.len() && self.edges@[k as int] == (i, j),
                None => !self.edges@.contains((i, j)),
            },
    {
        let mut k: usize = 0;
        while k < self.edges.len()
            invariant
                k <= self.edges@.len(),
                forall|m: int| 0 <= m < k ==> self.edges@[m] != (i, j),
            decreases self.edges@.len() - k,
        {
            let (a, b) = self.edges[k];
            if a == i && b == j {
                return Some(k);
            }
            k += 1;
        }
        None
    }

    /// Removes the directed edge `u -> v` if it is present; otherwise
    /// the graph is unchanged.  Vertices are never affected.
    pub fn remove_edge(&mut self, u: &V, v: &V)
        requires
            old(self).wf(),
            eq_reflects_equality::<V>(),
        ensures
            final(self).wf(),
            Self::remove_edge_rel(*old(self), *final(self), *u, *v),
            !final(self).spec_contains_edge(*u, *v),
    {
        let ghost pre = *self;
        let iu = match self.index_of(u) {
            Some(i) => i,
            None => {
                proof {
                    if pre.spec_contains_edge(*u, *v) {
                        Self::lemma_edge_endpoints_present(pre, *u, *v);
                    }
                }
                return ;
            },
        };
        let iv = match self.index_of(v) {
            Some(i) => i,
            None => {
                proof {
                    if pre.spec_contains_edge(*u, *v) {
                        Self::lemma_edge_endpoints_present(pre, *u, *v);
                    }
                }
                return ;
            },
        };
        match self.arc_position(iu, iv) {
            None => {
                proof {
                    assert forall|a: V, b: V| #[trigger]
                        self.spec_contains_edge(a, b) implies !(a == *u && b == *v) by {
                        if a == *u && b == *v {
                            let k = choose|k: int|
                                0 <= k < self.edges@.len() && self.verts@[(#[trigger] self
                                    .edges@[k]).0 as int] == a && self.verts@[self.edges@[k].1
                                    as int] == b;
                            assert(self.edges@[k].0 == iu);
                            assert(self.edges@[k].1 == iv);
                            assert(self.edges@.contains((iu, iv)));
                        }
                    }
                }
            },
            Some(k) => {
                let _ = self.edges.remove(k);
                proof {
                    pre.edges@.remove_ensures(k as int);
                    assert(self.edges@ == pre.edges@.remove(k as int));
                    assert forall|m: int|
                        0 <= m < self.edges@.len() implies #[trigger] self.edges@[m] == (
                    if m < k { pre.edges@[m] } else { pre.edges@[m + 1] }) by {}
                    assert(self.edges@.no_duplicates());
                    assert forall|a: V, b: V| #[trigger]
                        self.spec_contains_edge(a, b) implies pre.spec_contains_edge(a, b) && !(a
                        == *u && b == *v) by {
                        let m = choose|m: int|
                            0 <= m < self.edges@.len() && self.verts@[(#[trigger] self.edges@[m]).0
                                as int] == a && self.verts@[self.edges@[m].1 as int] == b;
                        let m0 = if m < k { m } else { m + 1 };
                        assert(pre.edges@[m0] == self.edges@[m]);
                        if a == *u && b == *v {
                            assert(pre.edges@[m0].0 == iu);
                            assert(pre.edges@[m0].1 == iv);
                            assert(pre.edges@[m0] == pre.edges@[k as int]);
                        }
                    }
                    assert forall|a: V, b: V|
                        pre.spec_contains_edge(a, b) && !(a == *u && b == *v) implies #[trigger] self
                        .spec_contains_edge(a, b) by {
                        let m0 = choose|m0: int|
                            0 <= m0 < pre.edges@.len() && pre.verts@[(#[trigger] pre.edges@[m0]).0
                                as int] == a && pre.verts@[pre.edges@[m0].1 as int] == b;
                        assert(pre.edges@[m0] != (iu, iv));
                        assert(m0 != k);
                        let m = if m0 < k { m0 } else { m0 - 1 };
                        assert(self.edges@[m] == pre.edges@[m0]);
                    }
                }
            },
        }
    }

    /// Every edge endpoint is a vertex of the graph.
    proof fn lemma_edge_endpoints_present(g: Graph<V>, a: V, b: V)
        requires
            g.wf(),
            g.spec_contains_edge(a, b),
        ensures
            g.spec_contains_vertex(a),
            g.spec_contains_vertex(b),
    {
        let k = choose|k: int|
            0 <= k < g.edges@.len() && g.verts@[(#[trigger] g.edges@[k]).0 as int] == a
                && g.verts@[g.edges@[k].1 as int] == b;
        assert(g.verts@.contains(a));
        assert(g.verts@.contains(b));
    }

    /// Removes the vertex `u` together with every edge into or out of
    /// it; a no-op if `u` is not a vertex.  Afterwards `u` is not a
    /// vertex and no remaining vertex has `u` as a neighbor.
    pub fn remove_vertex(&mut self, u: &V)
        requires
            old(self).wf(),
            eq_reflects_equality::<V>(),
        ensures
            final(self).wf(),
            Self::remove_vertex_rel(*old(self), *final(self), *u),
            !final(self).spec_contains_vertex(*u),
            forall|w: V| !final(self).spec_contains_edge(w, *u),
            forall|w: V| !final(self).spec_contains_edge(*u, w),
    {
        let ghost pre = *self;
        let iu = match self.index_of(u) {
            Some(i) => i,
            None => {
                proof {
                    assert forall|a: V, b: V| #[trigger]
                        self.spec_contains_edge(a, b) implies a != *u && b != *u by {
                        Self::lemma_edge_endpoints_present(*self, a, b);
                    }
                }
                return ;
            },
        };
        let mut kept: Vec<(usize, usize)> = Vec::new();
        let ghost mut srcs: Seq<int> = Seq::empty();
        let mut k: usize = 0;
        while k < self.edges.len()
            invariant
                *self == pre,
                self.wf(),
                iu < self.verts@.len(),
                k <= self.edges@.len(),
                kept@.no_duplicates(),
                srcs.len() == kept@.len(),
                forall|m: int|
                    0 <= m < kept@.len() ==> 0 <= #[trigger] srcs[m] < k && (
                    pre.edges@[srcs[m]]).0 != iu && pre.edges@[srcs[m]].1 != iu && kept@[m]
                        == Self::shifted(pre.edges@[srcs[m]], iu),
                forall|t: int|
                    0 <= t < k && (#[trigger] pre.edges@[t]).0 != iu && pre.edges@[t].1 != iu
                        ==> kept@.contains(Self::shifted(pre.edges@[t], iu)),
            decreases self.edges@.len() - k,
        {
            let ghost kept0 = kept@;
            let (a, b) = self.edges[k];
            if a != iu && b != iu {
                let a2 = if a > iu {
                    a - 1
                } else {
                    a
                };
                let b2 = if b > iu {
                    b - 1
                } else {
                    b
                };
                proof {
                    assert((a2, b2) == Self::shifted(pre.edges@[k as int], iu));
                    if kept@.contains((a2, b2)) {
                        let m = choose|m: int|
                            0 <= m < kept@.len() && kept@[m] == (a2, b2);
                        let t = srcs[m];
                        assert(pre.edges@[t].0 < pre.verts@.len());
                        assert(pre.edges@[k as int].0 < pre.verts@.len());
                        assert(pre.edges@[t] == pre.edges@[k as int]);
                        assert(false);
                    }
                }
                kept.push((a2, b2));
                proof {
                    srcs = srcs.push(k as int);
                    assert(kept@[kept@.len() - 1] == Self::shifted(pre.edges@[k as int], iu));
                    assert forall|m: int| 0 <= m < kept0.len() implies kept@[m] == kept0[m] by {}
                }
            }
            proof {
                assert forall|t: int|
                    0 <= t < k + 1 && (#[trigger] pre.edges@[t]).0 != iu && pre.edges@[t].1
                        != iu implies kept@.contains(Self::shifted(pre.edges@[t], iu)) by {
                    if t < k {
                        let m = choose|m: int|
                            0 <= m < kept0.len() && kept0[m] == Self::shifted(pre.edges@[t], iu);
                        assert(kept@[m] == Self::shifted(pre.edges@[t], iu));
                    } else {
                        assert(kept@[kept@.len() - 1] == Self::shifted(pre.edges@[t], iu));
                    }
                }
            }
            k += 1;
        }
        self.edges = kept;
        let _ = self.verts.remove(iu);
        proof {
            pre.verts@.remove_ensures(iu as int);
            assert(self.verts@ == pre.verts@.remove(iu as int));
            assert forall|m: int|
                0 <= m < self.verts@.len() implies #[trigger] self.verts@[m] == (
            if m < iu { pre.verts@[m] } else { pre.verts@[m + 1] }) by {}
            // well-formedness of the result
            assert forall|i: int, j: int|
                0 <= i < self.verts@.len() && 0 <= j < self.verts@.len() && i
                    != j implies #[trigger] self.verts@[i] != #[trigger] self.verts@[j] by {
                let i0 = if i < iu { i } else { i + 1 };
                let j0 = if j < iu { j } else { j + 1 };
                assert(pre.verts@[i0] != pre.verts@[j0]);
            }
            assert forall|m: int|
                0 <= m < self.edges@.len() implies (#[trigger] self.edges@[m]).0 < self
                .verts@.len() && self.edges@[m].1 < self.verts@.len() by {
                let t = srcs[m];
                assert(pre.edges@[t].0 < pre.verts@.len());
                assert(pre.edges@[t].1 < pre.verts@.len());
                assert(self.edges@[m] == Self::shifted(pre.edges@[t], iu));
            }
            // the vertex relation
            assert forall|w: V| #[trigger]
                self.spec_contains_vertex(w) <==> pre.spec_contains_vertex(w) && w != *u by {
                if self.spec_contains_vertex(w) {
                    let m = choose|m: int|
                        0 <= m < self.verts@.len() && self.verts@[m] == w;
                    let m0 = if m < iu { m } else { m + 1 };
                    assert(pre.verts@[m0] == w);
                    assert(pre.verts@.contains(w));
                    assert(pre.verts@[m0] != pre.verts@[iu as int]);
                }
                if pre.spec_contains_vertex(w) && w != *u {
                    let m0 = choose|m0: int|
                        0 <= m0 < pre.verts@.len() && pre.verts@[m0] == w;
                    assert(m0 != iu);
                    let m = if m0 < iu { m0 } else { m0 - 1 };
                    assert(self.verts@[m] == w);
                    assert(self.verts@.contains(w));
                }
            }
            // the edge relation
            assert forall|a: V, b: V| #[trigger]
                self.spec_contains_edge(a, b) implies pre.spec_contains_edge(a, b) && a != *u && b
                != *u by {
                let m = choose|m: int|
                    0 <= m < self.edges@.len() && self.verts@[(#[trigger] self.edges@[m]).0
                        as int] == a && self.verts@[self.edges@[m].1 as int] == b;
                let t = srcs[m];
                assert(self.edges@[m] == Self::shifted(pre.edges@[t], iu));
                assert(pre.edges@[t].0 < pre.verts@.len());
                assert(pre.edges@[t].1 < pre.verts@.len());
                assert(pre.verts@[pre.edges@[t].0 as int] == a);
                assert(pre.verts@[pre.edges@[t].1 as int] == b);
                assert(pre.verts@[pre.edges@[t].0 as int] != pre.verts@[iu as int]);
                assert(pre.verts@[pre.edges@[t].1 as int] != pre.verts@[iu as int]);
            }
            assert forall|a: V, b: V|
                pre.spec_contains_edge(a, b) && a != *u && b != *u implies #[trigger] self
                .spec_contains_edge(a, b) by {
                let t = choose|t: int|
                    0 <= t < pre.edges@.len() && pre.verts@[(#[trigger] pre.edges@[t]).0 as int]
                        == a && pre.verts@[pre.edges@[t].1 as int] == b;
                assert(pre.edges@[t].0 != iu);
                assert(pre.edges@[t].1 != iu);
                assert(kept@.contains(Self::shifted(pre.edges@[t], iu)));
                let m = choose|m: int|
                    0 <= m < self.edges@.len() && self.edges@[m] == Self::shifted(
                        pre.edges@[t],
                        iu,
                    );
                assert(self.verts@[(self.edges@[m]).0 as int] == a);
                assert(self.verts@[(self.edges@[m]).1 as int] == b);
            }
            assert forall|w: V| !self.spec_contains_edge(w, *u) && !self.spec_contains_edge(
                *u,
                w,
            ) by {}
        }
    }

    /// The index pair `e` after the arena slot `i` has been removed:
    /// indices above `i` move down one place.
    spec fn shifted(e: (usize, usize), i: usize) -> (usize, usize) {
        (
            (if e.0 > i {
                (e.0 - 1) as usize
            } else {
                e.0
            }),
            (if e.1 > i {
                (e.1 - 1) as usize
            } else {
                e.1
            }),
        )
    }

    /// A single edge-list entry linking `i` to `j` yields the edge
    /// `verts[i] -> verts[j]` of the abstract graph.
    proof fn lemma_iedge_value(&self, i: usize, j: usize)
        requires
            self.wf(),
            self.iedge(i, j),
        ensures
            self.spec_contains_edge(self.verts@[i as int], self.verts@[j as int]),
    {
        let pair = (i, j);
        assert(self.edges@.contains(pair));
        let k = choose|k: int| 0 <= k < self.edges@.len() && #[trigger] self.edges@[k] == pair;
        assert(self.verts@[(self.edges@[k]).0 as int] == self.verts@[i as int]);
        assert(self.verts@[(self.edges@[k]).1 as int] == self.verts@[j as int]);
    }

    /// A chain of arena indices yields a path between the vertex
    /// values it carries.
    proof fn lemma_ireach_lift(&self, i: usize, j: usize)
        requires
            self.wf(),
            self.inode(i),
            self.inode(j),
            self.ireach(i, j),
        ensures
            self.spec_reachable(self.verts@[i as int], self.verts@[j as int]),
    {
        let p = choose|p: Seq<usize>| self.ipath(p, i, j);
        let q = Seq::new(p.len(), |m: int| self.verts@[p[m] as int]);
        assert forall|m: int|
            0 <= m < q.len() - 1 implies self.spec_contains_edge(#[trigger] q[m], q[m + 1]) by {
            assert(self.iedge(p[m], p[m + 1]));
            self.lemma_iedge_value(p[m], p[m + 1]);
        }
        assert(q.first() == self.verts@[i as int]);
        assert(q.last() == self.verts@[j as int]);
        assert(self.is_path(q, self.verts@[i as int], self.verts@[j as int]));
    }

    /// Extends index-level reachability by one edge.
    proof fn lemma_ireach_step(&self, s: usize, i: usize, j: usize)
        requires
            self.ireach(s, i),
            self.iedge(i, j),
        ensures
            self.ireach(s, j),
    {
        let p = choose|p: Seq<usize>| self.ipath(p, s, i);
        let q = p.push(j);
        assert(q.last() == j);
        assert(q.first() == s);
        assert forall|m: int| 0 <= m < q.len() implies self.inode(#[trigger] q[m]) by {
            if m < p.len() {
                assert(q[m] == p[m]);
            } else {
                assert(q[m] == j);
            }
        }
        assert forall|m: int|
            0 <= m < q.len() - 1 implies self.iedge(#[trigger] q[m], q[m + 1]) by {
            if m < p.len() - 1 {
                assert(q[m] == p[m]);
                assert(q[m + 1] == p[m + 1]);
            } else {
                assert(q[m] == p.last());
                assert(q[m + 1] == j);
            }
        }
        assert(self.ipath(q, s, j));
    }

    /// Index-level reachability is reflexive.
    proof fn lemma_ireach_refl(&self, i: usize)
        requires
            self.inode(i),
        ensures
            self.ireach(i, i),
    {
        let p = seq![i];
        assert(p.last() == i);
        assert(self.ipath(p, i, i));
    }

    /// A path between two distinct vertex values passes only through
    /// vertices of the graph, and yields a chain between the arena
    /// indices of its endpoints.
    /// The chosen arena index of a present vertex value is valid and
    /// holds that value.
    proof fn lemma_vertex_index(&self, w: V)
        requires
            self.wf(),
            self.spec_contains_vertex(w),
        ensures
            self.inode(self.spec_index_of(w)),
            self.verts@[self.spec_index_of(w) as int] == w,
    {
        assert(self.verts@.len() <= usize::MAX) by {
            assert(self.verts.len() == self.verts@.len());
        }
        let i = choose|i: int| 0 <= i < self.verts@.len() && self.verts@[i] == w;
        assert(self.inode(i as usize) && self.verts@[(i as usize) as int] == w);
        assert(exists|k: usize| self.inode(k) && self.verts@[k as int] == w);
    }

    /// An edge of the abstract graph links the arena indices of its
    /// endpoint values.
    proof fn lemma_edge_to_iedge(&self, a: V, b: V)
        requires
            self.wf(),
            self.spec_contains_edge(a, b),
        ensures
            self.spec_contains_vertex(a),
            self.spec_contains_vertex(b),
            self.iedge(self.spec_index_of(a), self.spec_index_of(b)),
    {
        let k = choose|k: int|
            0 <= k < self.edges@.len() && self.verts@[(#[trigger] self.edges@[k]).0 as int] == a
                && self.verts@[self.edges@[k].1 as int] == b;
        assert(self.edges@[k].0 < self.verts@.len());
        assert(self.edges@[k].1 < self.verts@.len());
        assert(self.verts@.contains(a));
        assert(self.verts@.contains(b));
        self.lemma_vertex_index(a);
        self.lemma_vertex_index(b);
        assert(self.edges@[k].0 == self.spec_index_of(a));
        assert(self.edges@[k].1 == self.spec_index_of(b));
        assert(self.edges@[k] == (self.spec_index_of(a), self.spec_index_of(b)));
        assert(self.edges@.contains((self.spec_index_of(a), self.spec_index_of(b))));
    }

    /// A chain of vertex values linked by edges yields index-level
    /// reachability between the arena indices of its endpoints.
    proof fn lemma_value_path_to_ireach(&self, p: Seq<V>, i: usize, j: usize)
        requires
            self.wf(),
            p.len() >= 1,
            self.inode(i),
            self.inode(j),
            self.verts@[i as int] == p.first(),
            self.verts@[j as int] == p.last(),
            forall|m: int| 0 <= m < p.len() - 1 ==> self.spec_contains_edge(#[trigger] p[m], p[m + 1]),
        ensures
            self.ireach(i, j),
        decreases p.len(),
    {
        if p.len() == 1 {
            assert(i == j);
            self.lemma_ireach_refl(i);
        } else {
            let a = p[p.len() - 2];
            assert(self.spec_contains_edge(a, p.last()));
            self.lemma_edge_to_iedge(a, p.last());
            self.lemma_vertex_index(a);
            self.lemma_vertex_index(p.last());
            let ia = self.spec_index_of(a);
            let ib = self.spec_index_of(p.last());
            assert(ib == j);
            let p0 = p.drop_last();
            assert(p0.last() == a);
            assert(p0.first() == p.first());
            assert forall|m: int|
                0 <= m < p0.len() - 1 implies self.spec_contains_edge(
                #[trigger] p0[m],
                p0[m + 1],
            ) by {
                assert(p0[m] == p[m]);
                assert(p0[m + 1] == p[m + 1]);
            }
            self.lemma_value_path_to_ireach(p0, i, ia);
            self.lemma_ireach_step(i, ia, j);
        }
    }

    /// A path between two distinct values runs through vertices of the
    /// graph only, and yields index-level reachability between the
    /// arena indices of its endpoints.
    proof fn lemma_reach_lower(&self, u: V, v: V)
        requires
            self.wf(),
            self.spec_reachable(u, v),
            u != v,
        ensures
            self.spec_contains_vertex(u),
            self.spec_contains_vertex(v),
            forall|i: usize, j: usize|
                self.inode(i) && self.inode(j) && self.verts@[i as int] == u && self.verts@[j
                    as int] == v ==> self.ireach(i, j),
    {
        let p = choose|p: Seq<V>| self.is_path(p, u, v);
        assert(p.len() >= 2) by {
            if p.len() == 1 {
                assert(p.first() == p.last());
            }
        }
        assert(self.spec_contains_edge(p[0], p[1]));
        Self::lemma_edge_endpoints_present(*self, p[0], p[1]);
        assert(self.spec_contains_edge(p[p.len() - 2], p[p.len() - 1]));
        Self::lemma_edge_endpoints_present(*self, p[p.len() - 2], p[p.len() - 1]);
        assert forall|i: usize, j: usize|
            self.inode(i) && self.inode(j) && self.verts@[i as int] == u && self.verts@[j as int]
                == v implies self.ireach(i, j) by {
            self.lemma_value_path_to_ireach(p, i, j);
        }
    }

    /// Any path out of a set of vertices that is closed under edges
    /// stays inside it.
    proof fn lemma_search_closure(&self, vis: Seq<bool>, p: Seq<usize>, i: usize, j: usize)
        requires
            self.wf(),
            vis.len() == self.verts@.len(),
            forall|a: usize, b: usize|
                a < vis.len() && vis[a as int] && #[trigger] self.iedge(a, b) ==> vis[b as int],
            self.ipath(p, i, j),
            vis[i as int],
        ensures
            vis[j as int],
        decreases p.len(),
    {
        if p.len() > 1 {
            assert(self.iedge(p[0], p[1]));
            assert(vis[p[1] as int]);
            let q = p.subrange(1, p.len() as int);
            assert(q.first() == p[1]);
            assert(q.last() == p.last());
            assert forall|m: int| 0 <= m < q.len() implies self.inode(#[trigger] q[m]) by {
                assert(q[m] == p[m + 1]);
            }
            assert forall|m: int|
                0 <= m < q.len() - 1 implies self.iedge(#[trigger] q[m], q[m + 1]) by {
                assert(q[m] == p[m + 1]);
                assert(q[m + 1] == p[m + 2]);
            }
            assert(self.ipath(q, p[1], j));
            self.lemma_search_closure(vis, q, p[1], j);
        }
    }

    /// True iff `v` can be reached from `u` by following zero or more
    /// directed edges; in particular true whenever `u == v`, even for
    /// values that are not vertices of the graph.  The search visits
    /// each vertex at most once, so it terminates on cyclic graphs.
    pub fn path_exists_between(&self, u: &V, v: &V) -> (r: bool)
        requires
            self.wf(),
            eq_reflects_equality::<V>(),
        ensures
            r == self.spec_reachable(*u, *v),
    {
        if u == v {
            proof {
                let p = seq![*u];
                assert(p.last() == *u);
                assert(self.is_path(p, *u, *v));
            }
            return true;
        }
        let iu = match self.index_of(u) {
            Some(i) => i,
            None => {
                proof {
                    if self.spec_reachable(*u, *v) {
                        self.lemma_reach_lower(*u, *v);
                    }
                }
                return false;
            },
        };
        let iv = match self.index_of(v) {
            Some(i) => i,
            None => {
                proof {
                    if self.spec_reachable(*u, *v) {
                        self.lemma_reach_lower(*u, *v);
                    }
                }
                return false;
            },
        };
        let n = self.verts.len();
        let mut visited: Vec<bool> = Vec::new();
        let mut t: usize = 0;
        while t < n
            invariant
                t <= n,
                visited@.len() == t,
                forall|m: int| 0 <= m < t ==> !visited@[m],
            decreases n - t,
        {
            visited.push(false);
            t += 1;
        }
        visited.set(iu, true);
        let mut stack: Vec<usize> = Vec::new();
        stack.push(iu);
        proof {
            self.lemma_ireach_refl(iu);
            assert(self.verts@[iu as int] != self.verts@[iv as int]);
            assert(stack@[0] == iu);
            assert(stack@.contains(iu));
            assert forall|a: usize| a < n && visited@[a as int] implies stack@.contains(a) by {
                assert(a == iu);
            }
        }
        while stack.len() > 0
            invariant
                self.wf(),
                n == self.verts@.len(),
                iu < n,
                iv < n,
                iu != iv,
                self.verts@[iu as int] == *u,
                self.verts@[iv as int] == *v,
                visited@.len() == n,
                visited@[iu as int],
                !visited@[iv as int],
                forall|m: int|
                    0 <= m < stack@.len() ==> (#[trigger] stack@[m]) < n && visited@[stack@[m]
                        as int],
                forall|a: usize| a < n && visited@[a as int] ==> self.ireach(iu, a),
                forall|a: usize, b: usize|
                    a < n && visited@[a as int] && !stack@.contains(a) && #[trigger] self.iedge(
                        a,
                        b,
                    ) ==> visited@[b as int],
            decreases unvisited_count(visited@), stack@.len(),
        {
            let ghost vis0 = visited@;
            let ghost stk0 = stack@;
            let ghost len0 = stack@.len();
            proof {
                lemma_unvisited_count_nonneg(visited@);
            }
            let i = stack.pop().unwrap();
            proof {
                assert(stack@ == stk0.drop_last());
                assert(i == stk0[len0 - 1]);
                assert(visited@[i as int]);
                assert forall|x: usize| #[trigger]
                    stk0.contains(x) implies stack@.contains(x) || x == i by {
                    let m = choose|m: int| 0 <= m < stk0.len() && stk0[m] == x;
                    if m < stk0.len() - 1 {
                        assert(stack@[m] == x);
                    }
                }
            }
            let mut k: usize = 0;
            while k < self.edges.len()
                invariant
                    self.wf(),
                    n == self.verts@.len(),
                    iu < n,
                    iv < n,
                    iu != iv,
                    i < n,
                    k <= self.edges@.len(),
                    self.verts@[iu as int] == *u,
                    self.verts@[iv as int] == *v,
                    visited@.len() == n,
                    visited@[iu as int],
                    visited@[i as int],
                    !visited@[iv as int],
                    forall|m: int|
                        0 <= m < stack@.len() ==> (#[trigger] stack@[m]) < n && visited@[stack@[m]
                            as int],
                    forall|a: usize| a < n && visited@[a as int] ==> self.ireach(iu, a),
                    forall|a: usize, b: usize|
                        a < n && visited@[a as int] && !stack@.contains(a) && a != i
                            && #[trigger] self.iedge(a, b) ==> visited@[b as int],
                    forall|s: int|
                        0 <= s < k && (#[trigger] self.edges@[s]).0 == i ==> visited@[self
                            .edges@[s].1 as int],
                    unvisited_count(visited@) < unvisited_count(vis0) || (visited@ == vis0
                        && stack@.len() == len0 - 1),
                decreases self.edges@.len() - k,
            {
                let (a, b) = self.edges[k];
                if a == i {
                    proof {
                        assert(self.edges@[k as int].1 < self.verts@.len());
                        assert(self.edges@.contains((i, b)));
                        assert(self.iedge(i, b));
                    }
                    if b == iv {
                        proof {
                            assert(self.ireach(iu, i));
                            self.lemma_ireach_step(iu, i, iv);
                            self.lemma_ireach_lift(iu, iv);
                        }
                        return true;
                    }
                    if !visited[b] {
                        proof {
                            lemma_unvisited_count_update(visited@, b as int);
                            lemma_push_contains(stack@, b);
                            assert(self.ireach(iu, i));
                            self.lemma_ireach_step(iu, i, b);
                        }
                        visited.set(b, true);
                        stack.push(b);
                    }
                }
                k += 1;
            }
            proof {
                lemma_unvisited_count_nonneg(visited@);
                assert forall|a: usize, b: usize|
                    a < n && visited@[a as int] && !stack@.contains(a) && #[trigger] self.iedge(
                        a,
                        b,
                    ) implies visited@[b as int] by {
                    if a == i {
                        let s = choose|s: int|
                            0 <= s < self.edges@.len() && #[trigger] self.edges@[s] == (a, b);
                        assert(visited@[self.edges@[s].1 as int]);
                    }
                }
            }
        }
        proof {
            if self.spec_reachable(*u, *v) {
                self.lemma_reach_lower(*u, *v);
                assert(self.ireach(iu, iv));
                let p = choose|p: Seq<usize>| self.ipath(p, iu, iv);
                self.lemma_search_closure(visited@, p, iu, iv);
            }
        }
        false
    }

    /// True iff the directed edge `u -> v` is in the graph.
    pub fn contains_edge(&self, u: &V, v: &V) -> (r: bool)
        requires
            self.wf(),
            eq_reflects_equality::<V>(),
        ensures
            r == self.spec_contains_edge(*u, *v),
    {
        let iu = match self.index_of(u) {
            Some(i) => i,
            None => {
                proof {
                    if self.spec_contains_edge(*u, *v) {
                        Self::lemma_edge_endpoints_present(*self, *u, *v);
                    }
                }
                return false;
            },
        };
        let iv = match self.index_of(v) {
            Some(i) => i,
            None => {
                proof {
                    if self.spec_contains_edge(*u, *v) {
                        Self::lemma_edge_endpoints_present(*self, *u, *v);
                    }
                }
                return false;
            },
        };
        let r = self.has_arc(iu, iv);
        proof {
            if r {
                let k = choose|k: int|
                    0 <= k < self.edges@.len() && #[trigger] self.edges@[k] == (iu, iv);
                assert(self.verts@[(self.edges@[k]).0 as int] == *u);
                assert(self.verts@[(self.edges@[k]).1 as int] == *v);
            } else {
                if self.spec_contains_edge(*u, *v) {
                    let k = choose|k: int|
                        0 <= k < self.edges@.len() && self.verts@[(#[trigger] self.edges@[k]).0
                            as int] == *u && self.verts@[self.edges@[k].1 as int] == *v;
                    assert(self.edges@[k].0 == iu);
                    assert(self.edges@[k].1 == iv);
                    assert(self.edges@.contains((iu, iv)));
                }
            }
        }
        r
    }

    /// True iff `u` is a vertex of the graph.
    pub fn contains_vertex(&self, u: &V) -> (r: bool)
        requires
            eq_reflects_equality::<V>(),
        ensures
            r == self.spec_contains_vertex(*u),
    {
        match self.index_of(u) {
            Some(i) => {
                proof {
                    assert(self.verts@[i as int] == *u);
                }
                true
            },
            None => false,
        }
    }
}

/// Inserting a vertex a second time yields the same observable state
/// as inserting it once: the vertex set and the edge set are unchanged
/// by the repetition.
pub proof fn lemma_insert_vertex_idempotent<V>(g0: Graph<V>, g1: Graph<V>, g2: Graph<V>, v: V)
    requires
        Graph::insert_vertex_rel(g0, g1, v),
        Graph::insert_vertex_rel(g1, g2, v),
    ensures
        g2@ == g1@,
{
    assert forall|w: V| #[trigger]
        g2.spec_contains_vertex(w) <==> g1.spec_contains_vertex(w) by {
        assert(g1.spec_contains_vertex(v));
    }
    assert(g2@ =~~= g1@);
}

/// Inserting an edge a second time yields the same observable state as
/// inserting it once.
pub proof fn lemma_insert_edge_idempotent<V>(g0: Graph<V>, g1: Graph<V>, g2: Graph<V>, u: V, v: V)
    requires
        Graph::insert_edge_rel(g0, g1, u, v),
        Graph::insert_edge_rel(g1, g2, u, v),
    ensures
        g2@ == g1@,
{
    assert forall|w: V| #[trigger]
        g2.spec_contains_vertex(w) <==> g1.spec_contains_vertex(w) by {
        assert(g1.spec_contains_vertex(u));
        assert(g1.spec_contains_vertex(v));
    }
    assert forall|a: V, b: V| #[trigger]
        g2.spec_contains_edge(a, b) <==> g1.spec_contains_edge(a, b) by {
        assert(g1.spec_contains_edge(u, v));
    }
    assert(g2@ =~~= g1@);
}

/// Reachability is reflexive: every value reaches itself by the empty
/// path, whether or not it is a vertex of the graph.
pub proof fn lemma_reachable_refl<V>(g: Graph<V>, v: V)
    ensures
        g.spec_reachable(v, v),
{
    let p = seq![v];
    assert(p.last() == v);
    assert(g.is_path(p, v, v));
}

/// A value distinct from its target is reachable only if both are
/// vertices of the graph: paths run along edges, and edges link
/// vertices only.
pub proof fn lemma_reachable_endpoints<V: PartialEq>(g: Graph<V>, u: V, v: V)
    requires
        g.wf(),
        g.spec_reachable(u, v),
        u != v,
    ensures
        g.spec_contains_vertex(u),
        g.spec_contains_vertex(v),
{
    g.lemma_reach_lower(u, v);
}

impl<V: PartialEq + Clone> Graph<V> {
    /// The out-neighbors of `u`, each exactly once, in no particular
    /// order; empty if `u` is not a vertex.
    pub fn neighbors(&self, u: &V) -> (r: Vec<V>)
        requires
            self.wf(),
            eq_reflects_equality::<V>(),
            clone_respects_equality::<V>(),
        ensures
            forall|w: V| r@.contains(w) <==> self.spec_contains_edge(*u, w),
            r@.no_duplicates(),
    {
        let iu = match self.index_of(u) {
            Some(i) => i,
            None => {
                proof {
                    assert forall|w: V| !self.spec_contains_edge(*u, w) by {
                        if self.spec_contains_edge(*u, w) {
                            Self::lemma_edge_endpoints_present(*self, *u, w);
                        }
                    }
                }
                return Vec::new();
            },
        };
        let mut r: Vec<V> = Vec::new();
        let ghost mut srcs: Seq<int> = Seq::empty();
        let mut k: usize = 0;
        while k < self.edges.len()
            invariant
                self.wf(),
                clone_respects_equality::<V>(),
                iu < self.verts@.len(),
                self.verts@[iu as int] == *u,
                k <= self.edges@.len(),
                r@.no_duplicates(),
                srcs.len() == r@.len(),
                forall|m: int|
                    0 <= m < r@.len() ==> 0 <= #[trigger] srcs[m] < k && (
                    self.edges@[srcs[m]]).0 == iu && r@[m] == self.verts@[self.edges@[srcs[m]].1
                        as int],
                forall|t: int|
                    0 <= t < k && (#[trigger] self.edges@[t]).0 == iu ==> r@.contains(
                        self.verts@[self.edges@[t].1 as int],
                    ),
            decreases self.edges@.len() - k,
        {
            let ghost r0 = r@;
            let (a, b) = self.edges[k];
            if a == iu {
                let w = self.verts[b].clone();
                proof {
                    assert(cloned::<V>(self.verts@[b as int], w));
                    assert(w == self.verts@[b as int]);
                    if r@.contains(w) {
                        let m = choose|m: int| 0 <= m < r@.len() && r@[m] == w;
                        let t = srcs[m];
                        assert(self.edges@[t].1 < self.verts@.len());
                        assert(self.verts@[self.edges@[t].1 as int] == self.verts@[b as int]);
                        assert(self.edges@[t].1 == b);
                        assert(self.edges@[t] == self.edges@[k as int]);
                        assert(false);
                    }
                }
                r.push(w);
                proof {
                    srcs = srcs.push(k as int);
                    assert forall|m: int| 0 <= m < r0.len() implies r@[m] == r0[m] by {}
                }
            }
            proof {
                assert forall|t: int|
                    0 <= t < k + 1 && (#[trigger] self.edges@[t]).0 == iu implies r@.contains(
                    self.verts@[self.edges@[t].1 as int],
                ) by {
                    if t < k {
                        let m = choose|m: int|
                            0 <= m < r0.len() && r0[m] == self.verts@[self.edges@[t].1 as int];
                        assert(r@[m] == self.verts@[self.edges@[t].1 as int]);
                    } else {
                        assert(r@[r@.len() - 1] == self.verts@[self.edges@[t].1 as int]);
                    }
                }
            }
            k += 1;
        }
        proof {
            assert forall|w: V| r@.contains(w) implies self.spec_contains_edge(*u, w) by {
                let m = choose|m: int| 0 <= m < r@.len() && r@[m] == w;
                let t = srcs[m];
                assert(self.verts@[(self.edges@[t]).0 as int] == *u);
                assert(self.verts@[(self.edges@[t]).1 as int] == w);
            }
            assert forall|w: V| self.spec_contains_edge(*u, w) implies r@.contains(w) by {
                let t = choose|t: int|
                    0 <= t < self.edges@.len() && self.verts@[(#[trigger] self.edges@[t]).0
                        as int] == *u && self.verts@[self.edges@[t].1 as int] == w;
                assert(self.edges@[t].0 == iu);
            }
        }
        r
    }

    /// Every vertex of the graph, each exactly once, in no particular
    /// order.
    pub fn vertices(&self) -> (r: Vec<V>)
        requires
            self.wf(),
            clone_respects_equality::<V>(),
        ensures
            forall|w: V| r@.contains(w) <==> self.spec_contains_vertex(w),
            r@.no_duplicates(),
    {
        let mut r: Vec<V> = Vec::new();
        let mut i: usize = 0;
        while i < self.verts.len()
            invariant
                self.wf(),
                clone_respects_equality::<V>(),
                i <= self.verts@.len(),
                r@.len() == i,
                forall|m: int| 0 <= m < i ==> r@[m] == self.verts@[m],
            decreases self.verts@.len() - i,
        {
            let w = self.verts[i].clone();
            proof {
                assert(cloned::<V>(self.verts@[i as int], w));
            }
            r.push(w);
            i += 1;
        }
        proof {
            assert(r@ =~= self.verts@);
        }
        r
    }
}

} // verus!
