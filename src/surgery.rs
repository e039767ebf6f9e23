use vstd::prelude::*;

use crate::graph::{Graph, ordered_pair, pairs_sorted, shift_pair};

verus! {

/// The edges of `g` with the edge at `e1` split by the new vertex `v1 = n`,
/// the edge at `e2` split by `v2 = n + 1`, and the bridge `(v1, v2)` placed
/// right after the two halves of the first, before any sorting.
pub open spec fn across_prefix(n: u8, edges: Seq<(u8, u8)>, e1: int, e2: int, m: int) -> Seq<
    (u8, u8),
>
    decreases m,
{
    if m <= 0 {
        Seq::empty()
    } else {
        let rest = across_prefix(n, edges, e1, e2, m - 1);
        let (u, v) = edges[m - 1];
        let v1 = n;
        let v2 = (n + 1) as u8;
        if m - 1 == e1 {
            rest + seq![(u, v1), (v, v1), (v1, v2)]
        } else if m - 1 == e2 {
            rest + seq![(u, v2), (v, v2)]
        } else {
            rest.push((u, v))
        }
    }
}

pub open spec fn across_edges(n: u8, edges: Seq<(u8, u8)>, e1: int, e2: int) -> Seq<(u8, u8)> {
    across_prefix(n, edges, e1, e2, edges.len() as int)
}

/// Where a vertex goes when the edge `(u, v)` is contracted.
pub open spec fn relabel(x: u8, u: u8, v: u8) -> u8 {
    if x < v {
        x
    } else if x == v {
        u
    } else {
        (x - 1) as u8
    }
}

/// What the edge at position `k` becomes when the edge at `e` is contracted:
/// `None` for the contracted edge itself and for a loop.
pub open spec fn contracted_at(g: Graph, e: int, k: int) -> Option<(u8, u8)> {
    let (u, v) = g.edges@[e];
    let (a, b) = g.edges@[k];
    let aa = relabel(a, u, v);
    let bb = relabel(b, u, v);
    if k == e || aa == bb {
        None
    } else {
        Some(ordered_pair(aa, bb))
    }
}

/// The surviving images of the first `m` edges, in order, repeats kept.
pub open spec fn contracted_prefix(g: Graph, e: int, m: int) -> Seq<(u8, u8)>
    decreases m,
{
    if m <= 0 {
        Seq::empty()
    } else {
        let rest = contracted_prefix(g, e, m - 1);
        match contracted_at(g, e, m - 1) {
            Some(p) => rest.push(p),
            None => rest,
        }
    }
}

/// The edge set left after contracting the edge at position `e`.
pub open spec fn contracted_set(g: Graph, e: int) -> Set<(u8, u8)> {
    contracted_prefix(g, e, g.edges@.len() as int).to_set()
}

/// Relies on std's `slice::sort`: a stable sort, by the lexicographic order
/// of tuples, that keeps every element.
#[verifier::external_body]
fn sort_pairs(v: &mut Vec<(u8, u8)>)
    ensures
        final(v)@.to_multiset() == old(v)@.to_multiset(),
        pairs_sorted(final(v)@),
{
    v.sort();
}

/// Whether `v` lists the pair `p`.
fn contains_pair(v: &Vec<(u8, u8)>, p: (u8, u8)) -> (r: bool)
    ensures
        r == v@.contains(p),
{
    let mut i: usize = 0;
    while i < v.len()
        invariant
            i <= v@.len(),
            forall|j: int| 0 <= j < i ==> v@[j] != p,
        decreases v@.len() - i,
    {
        let (a, b) = v[i];
        if a == p.0 && b == p.1 {
            return true;
        }
        i = i + 1;
    }
    false
}

impl Graph {
    /// Disjoint union: `other`'s vertices are numbered after `self`'s, and its
    /// edges follow `self`'s.
    pub fn union(&self, other: &Graph) -> (r: Graph)
        requires
            self.num_vertices + other.num_vertices <= 255,
            forall|k: int|
                0 <= k < other.edges@.len() ==> #[trigger] other.edges@[k].0 + self.num_vertices
                    <= 255 && other.edges@[k].1 + self.num_vertices <= 255,
        ensures
            r.num_vertices == self.num_vertices + other.num_vertices,
            r.edges@ == self.edges@ + other.edges@.map_values(
                |p: (u8, u8)| shift_pair(p, self.num_vertices),
            ),
            r.edges@.len() == self.edges@.len() + other.edges@.len(),
    {
        let k = self.num_vertices;
        let mut edges: Vec<(u8, u8)> = Vec::new();
        let mut i: usize = 0;
        while i < self.edges.len()
            invariant
                i <= self.edges@.len(),
                edges@ == self.edges@.take(i as int),
            decreases self.edges@.len() - i,
        {
            edges.push(self.edges[i]);
            proof {
                assert(self.edges@.take(i as int + 1) =~= self.edges@.take(i as int).push(
                    self.edges@[i as int],
                ));
            }
            i = i + 1;
        }
        i = 0;
        proof {
            assert(self.edges@.take(self.edges@.len() as int) =~= self.edges@);
            assert(self.edges@ + other.edges@.take(0).map_values(|p: (u8, u8)| shift_pair(p, k))
                =~= self.edges@);
        }
        while i < other.edges.len()
            invariant
                i <= other.edges@.len(),
                k == self.num_vertices,
                forall|j: int|
                    0 <= j < other.edges@.len() ==> #[trigger] other.edges@[j].0 + k <= 255
                        && other.edges@[j].1 + k <= 255,
                edges@ == self.edges@ + other.edges@.take(i as int).map_values(
                    |p: (u8, u8)| shift_pair(p, k),
                ),
            decreases other.edges@.len() - i,
        {
            let (a, b) = other.edges[i];
            edges.push((a + k, b + k));
            proof {
                assert(other.edges@.take(i as int + 1) =~= other.edges@.take(i as int).push(
                    other.edges@[i as int],
                ));
            }
            i = i + 1;
        }
        proof {
            assert(other.edges@.take(i as int) =~= other.edges@);
        }
        Graph { num_vertices: self.num_vertices + other.num_vertices, edges }
    }

    /// Subdivides the edges at positions `e1idx` and `e2idx` by two new
    /// vertices and joins those by an edge; the result lists its edges sorted.
    pub fn add_edge_across(&self, e1idx: usize, e2idx: usize) -> (r: Graph)
        requires
            e1idx != e2idx,
            e1idx < self.edges@.len(),
            e2idx < self.edges@.len(),
            self.num_vertices + 2 <= 255,
        ensures
            r.num_vertices == self.num_vertices + 2,
            r.edges@.to_multiset() == across_edges(
                self.num_vertices,
                self.edges@,
                e1idx as int,
                e2idx as int,
            ).to_multiset(),
            pairs_sorted(r.edges@),
            r.edges@.len() == self.edges@.len() + 3,
    {
        let n = self.num_vertices;
        let v1 = n;
        let v2 = n + 1;
        let mut new_edges: Vec<(u8, u8)> = Vec::new();
        let mut i: usize = 0;
        while i < self.edges.len()
            invariant
                i <= self.edges@.len(),
                e1idx != e2idx,
                v1 == self.num_vertices,
                v2 == self.num_vertices + 1,
                new_edges@ == across_prefix(
                    self.num_vertices,
                    self.edges@,
                    e1idx as int,
                    e2idx as int,
                    i as int,
                ),
                new_edges@.len() == i + if i > e1idx { 2int } else { 0 } + if i > e2idx {
                    1int
                } else {
                    0
                },
            decreases self.edges@.len() - i,
        {
            let (u, v) = self.edges[i];
            if i == e1idx {
                new_edges.push((u, v1));
                new_edges.push((v, v1));
                new_edges.push((v1, v2));
            } else if i == e2idx {
                new_edges.push((u, v2));
                new_edges.push((v, v2));
            } else {
                new_edges.push((u, v));
            }
            proof {
                assert(new_edges@ =~= across_prefix(
                    self.num_vertices,
                    self.edges@,
                    e1idx as int,
                    e2idx as int,
                    i as int + 1,
                ));
            }
            i = i + 1;
        }
        let ghost unsorted = new_edges@;
        sort_pairs(&mut new_edges);
        proof {
            vstd::seq_lib::to_multiset_len(unsorted);
            vstd::seq_lib::to_multiset_len(new_edges@);
        }
        Graph { num_vertices: n + 2, edges: new_edges }
    }

    /// Contracts the edge at position `eidx`: its upper endpoint merges into
    /// the lower one, the vertices above it move down by one, loops are dropped
    /// and parallel edges kept once.
    pub fn contract_edge(&self, eidx: usize) -> (r: Graph)
        requires
            eidx < self.edges@.len(),
            self.edges@[eidx as int].0 < self.edges@[eidx as int].1,
            self.num_vertices >= 1,
        ensures
            r.num_vertices == self.num_vertices - 1,
            r.edges@.no_duplicates(),
            r.edge_set() == contracted_set(*self, eidx as int),
            r.edges@.len() == contracted_set(*self, eidx as int).len(),
    {
        let (u, v) = self.edges[eidx];
        let mut out: Vec<(u8, u8)> = Vec::new();
        let mut k: usize = 0;
        while k < self.edges.len()
            invariant
                k <= self.edges@.len(),
                eidx < self.edges@.len(),
                (u, v) == self.edges@[eidx as int],
                u < v,
                out@.no_duplicates(),
                out@.to_set() == contracted_prefix(*self, eidx as int, k as int).to_set(),
            decreases self.edges@.len() - k,
        {
            let (a, b) = self.edges[k];
            let aa = if a < v {
                a
            } else if a == v {
                u
            } else {
                a - 1
            };
            let bb = if b < v {
                b
            } else if b == v {
                u
            } else {
                b - 1
            };
            proof {
                contracted_prefix(*self, eidx as int, k as int).lemma_push_to_set_commute(
                    ordered_pair(aa, bb),
                );
            }
            if k != eidx && aa != bb {
                let p = if aa < bb {
                    (aa, bb)
                } else {
                    (bb, aa)
                };
                if !contains_pair(&out, p) {
                    proof {
                        out@.lemma_push_to_set_commute(p);
                    }
                    out.push(p);
                } else {
                    proof {
                        assert(out@.to_set().insert(p) =~= out@.to_set());
                    }
                }
            }
            k = k + 1;
        }
        proof {
            out@.unique_seq_to_set();
        }
        Graph { num_vertices: self.num_vertices - 1, edges: out }
    }

    /// Contracts the edge at position `eidx` when that removes exactly one
    /// edge; `None` when it also merges other edges.
    pub fn contract_edge_opt(&self, eidx: usize) -> (r: Option<Graph>)
        requires
            eidx < self.edges@.len(),
            self.edges@[eidx as int].0 < self.edges@[eidx as int].1,
            self.num_vertices >= 1,
        ensures
            r is None <==> contracted_set(*self, eidx as int).len() + 1 != self.edges@.len(),
            r matches Some(h) ==> h.num_vertices == self.num_vertices - 1
                && h.edges@.no_duplicates() && h.edge_set() == contracted_set(*self, eidx as int)
                && h.edges@.len() + 1 == self.edges@.len(),
    {
        let g = self.contract_edge(eidx);
        if g.edges.len() == self.edges.len() - 1 {
            Some(g)
        } else {
            None
        }
    }
}

/// Two distinct edges other than the one at `e` have the same image, so the
/// contraction at `e` merges them.
pub open spec fn contraction_merges(g: Graph, e: int) -> bool {
    exists|k1: int, k2: int|
        0 <= k1 < g.edges@.len() && 0 <= k2 < g.edges@.len() && k1 != k2 && k1 != e && k2 != e
            && #[trigger] contracted_at(g, e, k1) == #[trigger] contracted_at(g, e, k2)
}

/// Position in the edge list of the `p`-th survivor of the contraction at `e`.
pub open spec fn survivor_index(e: int, p: int) -> int {
    if p < e {
        p
    } else {
        p + 1
    }
}

/// In a simple graph, no edge other than the contracted one becomes a loop.
proof fn lemma_no_other_loop(g: Graph, e: int, k: int)
    requires
        g.is_simple(),
        0 <= e < g.edges@.len(),
        0 <= k < g.edges@.len(),
        k != e,
    ensures
        contracted_at(g, e, k) is Some,
{
    assert(g.edges@[e].0 < g.edges@[e].1);
    assert(g.edges@[k].0 < g.edges@[k].1);
    assert(g.edges@[k] != g.edges@[e]);
}

proof fn lemma_contracted_prefix_shape(g: Graph, e: int, m: int)
    requires
        g.is_simple(),
        0 <= e < g.edges@.len(),
        0 <= m <= g.edges@.len(),
    ensures
        contracted_prefix(g, e, m).len() == if e < m {
            m - 1
        } else {
            m
        },
        forall|p: int|
            0 <= p < contracted_prefix(g, e, m).len() ==> Some(
                #[trigger] contracted_prefix(g, e, m)[p],
            ) == contracted_at(g, e, survivor_index(e, p)),
    decreases m,
{
    if m > 0 {
        lemma_contracted_prefix_shape(g, e, m - 1);
        if m - 1 != e {
            lemma_no_other_loop(g, e, m - 1);
        }
    }
}

/// Contraction at `e` of a simple graph loses more than the contracted edge
/// exactly when it merges two other edges; otherwise exactly one edge goes.
pub proof fn lemma_contraction_loses_one_iff_no_merge(g: Graph, e: int)
    requires
        g.is_simple(),
        0 <= e < g.edges@.len(),
    ensures
        (contracted_set(g, e).len() + 1 == g.edges@.len()) <==> !contraction_merges(g, e),
{
    let len = g.edges@.len() as int;
    let s = contracted_prefix(g, e, len);
    lemma_contracted_prefix_shape(g, e, len);
    if contraction_merges(g, e) {
        let (k1, k2) = choose|k1: int, k2: int|
            0 <= k1 < len && 0 <= k2 < len && k1 != k2 && k1 != e && k2 != e
                && #[trigger] contracted_at(g, e, k1) == #[trigger] contracted_at(g, e, k2);
        let pos1 = if k1 < e {
            k1
        } else {
            k1 - 1
        };
        let pos2 = if k2 < e {
            k2
        } else {
            k2 - 1
        };
        assert(survivor_index(e, pos1) == k1);
        assert(survivor_index(e, pos2) == k2);
        assert(Some(s[pos1]) == contracted_at(g, e, k1));
        assert(Some(s[pos2]) == contracted_at(g, e, k2));
        assert(!s.no_duplicates());
        if s.to_set().len() == s.len() {
            s.lemma_no_dup_set_cardinality();
        }
        s.lemma_cardinality_of_set();
    } else {
        assert forall|pos1: int, pos2: int| 0 <= pos1 < s.len() && 0 <= pos2 < s.len() && pos1 != pos2 implies s[pos1]
            != s[pos2] by {
            assert(Some(s[pos1]) == contracted_at(g, e, survivor_index(e, pos1)));
            assert(Some(s[pos2]) == contracted_at(g, e, survivor_index(e, pos2)));
            if s[pos1] == s[pos2] {
                assert(contraction_merges(g, e));
            }
        }
        s.unique_seq_to_set();
    }
}

} // verus!
