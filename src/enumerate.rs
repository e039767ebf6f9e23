use vstd::prelude::*;

use crate::codec::{g6_encoding, lemma_encoding_same_set};
use crate::graph::{Graph, shift_pair};
use crate::surgery::{across_edges, contracted_prefix, contracted_set};

verus! {

/// Whether the family for genus `g` and defect `d` can be computed at all.
pub open spec fn feasible(g: int, d: int) -> bool {
    g >= 3 && d + 8 <= 2 * g
}

pub open spec fn target_vertices(g: int, d: int) -> int {
    3 * g - 3 - d
}

pub open spec fn target_edges(g: int, d: int) -> int {
    2 * g - 2 - d
}

/// Whether `compute_family(g, d)` has anything to do; when not, it is a no-op.
pub fn is_feasible(g: usize, d: usize) -> (r: bool)
    ensures
        r == feasible(g as int, d as int),
{
    g >= 3 && (d as u128) + 8 <= 2 * (g as u128)
}

/// The vertex and edge counts of every graph of the family `(g, d)`; the
/// edges always fit in a simple graph on those vertices.
pub fn targets(g: usize, d: usize) -> (r: (usize, usize))
    requires
        feasible(g as int, d as int),
        3 * g <= usize::MAX,
    ensures
        r.0 == target_vertices(g as int, d as int),
        r.1 == target_edges(g as int, d as int),
        r.0 * (r.0 - 1) / 2 >= r.1,
{
    let n = 3 * g - 3 - d;
    let e = 2 * g - 2 - d;
    proof {
        assert(n * (n - 1) >= 2 * n) by (nonlinear_arith)
            requires
                n >= 3,
        ;
    }
    (n, e)
}

/// The graph6 texts of the successful contractions of one graph, over the
/// edge positions below `m`.
pub open spec fn contraction_codes_of(g: Graph, m: int) -> Seq<Seq<char>>
    decreases m,
{
    if m <= 0 {
        Seq::empty()
    } else {
        let rest = contraction_codes_of(g, m - 1);
        if contracted_set(g, m - 1).len() + 1 == g.edges@.len() {
            rest.push(
                g6_encoding(
                    g.num_vertices - 1,
                    contracted_prefix(g, m - 1, g.edges@.len() as int),
                ),
            )
        } else {
            rest
        }
    }
}

/// The contraction candidates of the first `m` graphs of a family, in order.
pub open spec fn contraction_codes(family: Seq<Graph>, last: int, m: int) -> Seq<Seq<char>>
    decreases m,
{
    if m <= 0 {
        Seq::empty()
    } else {
        let g = family[m - 1];
        contraction_codes(family, last, m - 1) + contraction_codes_of(
            g,
            if g.edges@.len() < last + 1 {
                g.edges@.len() as int
            } else {
                last + 1
            },
        )
    }
}

pub open spec fn texts(v: Seq<String>) -> Seq<Seq<char>> {
    v.map_values(|s: String| s@)
}

/// The graphs one may contract: well formed, with a vertex count that stays
/// encodable after one contraction.
pub open spec fn contractible_family(family: Seq<Graph>) -> bool {
    forall|x: int|
        0 <= x < family.len() ==> #[trigger] family[x].wf() && family[x].num_vertices <= 63
}

/// The defect-increasing step: every graph of the family, contracted at each
/// edge position `0 ..= last` that it has, keeping only the contractions
/// that remove exactly one edge, as graph6 texts.
pub fn contraction_candidates(family: &Vec<Graph>, last: usize) -> (r: Vec<String>)
    requires
        contractible_family(family@),
        last < usize::MAX,
    ensures
        texts(r@) == contraction_codes(family@, last as int, family@.len() as int),
{
    let mut out: Vec<String> = Vec::new();
    let mut x: usize = 0;
    while x < family.len()
        invariant
            x <= family@.len(),
            contractible_family(family@),
            last < usize::MAX,
            texts(out@) == contraction_codes(family@, last as int, x as int),
        decreases family@.len() - x,
    {
        let g = &family[x];
        let bound: usize = if g.edges.len() < last + 1 {
            g.edges.len()
        } else {
            last + 1
        };
        let ghost before = texts(out@);
        proof {
            assert(family@[x as int].wf());
        }
        let mut idx: usize = 0;
        while idx < bound
            invariant
                idx <= bound,
                x < family@.len(),
                bound <= g.edges@.len(),
                *g == family@[x as int],
                g.wf(),
                g.num_vertices <= 63,
                texts(out@) == before + contraction_codes_of(*g, idx as int),
            decreases bound - idx,
        {
            proof {
                assert(g.edges@[idx as int].0 < g.edges@[idx as int].1);
            }
            match g.contract_edge_opt(idx) {
                Some(h) => {
                    let code = h.to_g6();
                    proof {
                        lemma_encoding_same_set(
                            h.num_vertices as int,
                            h.edges@,
                            contracted_prefix(*g, idx as int, g.edges@.len() as int),
                        );
                    }
                    let ghost prev = out@;
                    out.push(code);
                    proof {
                        assert(texts(out@) =~= texts(prev).push(code@));
                        assert(texts(out@) =~= before + contraction_codes_of(*g, idx as int + 1));
                    }
                },
                None => {
                    proof {
                        assert(contraction_codes_of(*g, idx as int + 1) == contraction_codes_of(
                            *g,
                            idx as int,
                        ));
                    }
                },
            }
            idx = idx + 1;
        }
        proof {
            assert(texts(out@) =~= contraction_codes(family@, last as int, x as int + 1));
        }
        x = x + 1;
    }
    out
}

/// Two edge lists with the same multiset hold the same set.
proof fn lemma_same_multiset_same_set(a: Seq<(u8, u8)>, b: Seq<(u8, u8)>)
    requires
        a.to_multiset() == b.to_multiset(),
    ensures
        a.to_set() == b.to_set(),
{
    broadcast use vstd::set::group_set_axioms;

    assert forall|p: (u8, u8)| a.to_set().contains(p) == b.to_set().contains(p) by {
        assert(a.to_set().contains(p) == a.contains(p));
        assert(b.to_set().contains(p) == b.contains(p));
        vstd::seq_lib::to_multiset_contains(a, p);
        vstd::seq_lib::to_multiset_contains(b, p);
    }
    assert(a.to_set() =~= b.to_set());
}

/// The text of `g` with the edges at positions `j` and `k` joined across.
pub open spec fn across_code(n: u8, edges: Seq<(u8, u8)>, j: int, k: int) -> Seq<char> {
    g6_encoding(n + 2, across_edges(n, edges, j, k))
}

/// Joins of the edge at `j` with those at `j + 1 .. m`.
pub open spec fn self_join_row(g: Graph, j: int, m: int) -> Seq<Seq<char>>
    decreases m - j,
{
    if m <= j + 1 {
        Seq::empty()
    } else {
        self_join_row(g, j, m - 1).push(across_code(g.num_vertices, g.edges@, j, m - 1))
    }
}

/// Joins of every pair `j < k < ee` with `j < m`.
pub open spec fn self_join_of(g: Graph, ee: int, m: int) -> Seq<Seq<char>>
    decreases m,
{
    if m <= 0 {
        Seq::empty()
    } else {
        self_join_of(g, ee, m - 1) + self_join_row(g, m - 1, ee)
    }
}

pub open spec fn self_join_codes(family: Seq<Graph>, ee: int, m: int) -> Seq<Seq<char>>
    decreases m,
{
    if m <= 0 {
        Seq::empty()
    } else {
        self_join_codes(family, ee, m - 1) + self_join_of(family[m - 1], ee, ee)
    }
}

/// Graphs that can take two more vertices and stay encodable, with at least
/// `ee` edges.
pub open spec fn joinable_family(family: Seq<Graph>, ee: int) -> bool {
    forall|x: int|
        0 <= x < family.len() ==> #[trigger] family[x].num_vertices + 2 <= 62
            && ee <= family[x].edges@.len()
}

/// The genus-increasing self-join: for every graph and every pair of edge
/// positions `j < k < ee`, the graph with those two edges joined across.
pub fn self_join_candidates(family: &Vec<Graph>, ee: usize) -> (r: Vec<String>)
    requires
        joinable_family(family@, ee as int),
    ensures
        texts(r@) == self_join_codes(family@, ee as int, family@.len() as int),
{
    let mut out: Vec<String> = Vec::new();
    let mut x: usize = 0;
    while x < family.len()
        invariant
            x <= family@.len(),
            joinable_family(family@, ee as int),
            texts(out@) == self_join_codes(family@, ee as int, x as int),
        decreases family@.len() - x,
    {
        let g = &family[x];
        proof {
            assert(family@[x as int].num_vertices + 2 <= 62);
        }
        let ghost start = texts(out@);
        let mut j: usize = 0;
        while j < ee
            invariant
                j <= ee <= g.edges@.len(),
                x < family@.len(),
                *g == family@[x as int],
                g.num_vertices + 2 <= 62,
                texts(out@) == start + self_join_of(*g, ee as int, j as int),
            decreases ee - j,
        {
            let ghost row_start = texts(out@);
            let mut k: usize = j + 1;
            while k < ee
                invariant
                    j < k <= ee || (k == j + 1 && j + 1 >= ee),
                    j < ee <= g.edges@.len(),
                    g.num_vertices + 2 <= 62,
                    texts(out@) == row_start + self_join_row(*g, j as int, k as int),
                decreases ee - k,
            {
                let h = g.add_edge_across(j, k);
                let code = h.to_g6();
                proof {
                    lemma_same_multiset_same_set(
                        h.edges@,
                        across_edges(g.num_vertices, g.edges@, j as int, k as int),
                    );
                    lemma_encoding_same_set(
                        h.num_vertices as int,
                        h.edges@,
                        across_edges(g.num_vertices, g.edges@, j as int, k as int),
                    );
                }
                let ghost prev = out@;
                out.push(code);
                proof {
                    assert(texts(out@) =~= texts(prev).push(code@));
                    assert(texts(out@) =~= row_start + self_join_row(*g, j as int, k + 1));
                }
                k = k + 1;
            }
            proof {
                assert(self_join_row(*g, j as int, k as int) == self_join_row(
                    *g,
                    j as int,
                    ee as int,
                ));
                assert(texts(out@) =~= start + self_join_of(*g, ee as int, j + 1));
            }
            j = j + 1;
        }
        proof {
            assert(texts(out@) =~= self_join_codes(family@, ee as int, x + 1));
        }
        x = x + 1;
    }
    out
}

/// The edges of `a.union(b)`.
pub open spec fn union_edges(a: Graph, b: Graph) -> Seq<(u8, u8)> {
    a.edges@ + b.edges@.map_values(|p: (u8, u8)| shift_pair(p, a.num_vertices))
}

/// The text of `a.union(b)` with edge `i` of `a` joined to edge `j` of `b`.
pub open spec fn cross_code(a: Graph, b: Graph, i: int, j: int) -> Seq<char> {
    across_code(
        (a.num_vertices + b.num_vertices) as u8,
        union_edges(a, b),
        i,
        a.edges@.len() + j,
    )
}

pub open spec fn cross_row(a: Graph, b: Graph, i: int, m: int) -> Seq<Seq<char>>
    decreases m,
{
    if m <= 0 {
        Seq::empty()
    } else {
        cross_row(a, b, i, m - 1).push(cross_code(a, b, i, m - 1))
    }
}

pub open spec fn cross_pair(a: Graph, b: Graph, m: int) -> Seq<Seq<char>>
    decreases m,
{
    if m <= 0 {
        Seq::empty()
    } else {
        cross_pair(a, b, m - 1) + cross_row(a, b, m - 1, b.edges@.len() as int)
    }
}

pub open spec fn cross_with(a: Graph, family2: Seq<Graph>, m: int) -> Seq<Seq<char>>
    decreases m,
{
    if m <= 0 {
        Seq::empty()
    } else {
        cross_with(a, family2, m - 1) + cross_pair(a, family2[m - 1], a.edges@.len() as int)
    }
}

pub open spec fn cross_join_codes(family1: Seq<Graph>, family2: Seq<Graph>, m: int) -> Seq<
    Seq<char>,
>
    decreases m,
{
    if m <= 0 {
        Seq::empty()
    } else {
        cross_join_codes(family1, family2, m - 1) + cross_with(
            family1[m - 1],
            family2,
            family2.len() as int,
        )
    }
}

/// Pairs of graphs whose union can take two more vertices and stay encodable.
pub open spec fn crossable_families(family1: Seq<Graph>, family2: Seq<Graph>) -> bool {
    &&& forall|y: int| 0 <= y < family2.len() ==> #[trigger] family2[y].wf()
    &&& forall|x: int, y: int|
        0 <= x < family1.len() && 0 <= y < family2.len() ==> #[trigger] family1[x].num_vertices
            + #[trigger] family2[y].num_vertices + 2 <= 62
}

/// The genus-increasing cross-join: for every graph `a` of the first family
/// and `b` of the second, their disjoint union with each edge of `a` joined
/// across to each edge of `b`.
pub fn cross_join_candidates(family1: &Vec<Graph>, family2: &Vec<Graph>) -> (r: Vec<String>)
    requires
        crossable_families(family1@, family2@),
    ensures
        texts(r@) == cross_join_codes(family1@, family2@, family1@.len() as int),
{
    let mut out: Vec<String> = Vec::new();
    let mut x: usize = 0;
    while x < family1.len()
        invariant
            x <= family1@.len(),
            crossable_families(family1@, family2@),
            texts(out@) == cross_join_codes(family1@, family2@, x as int),
        decreases family1@.len() - x,
    {
        let a = &family1[x];
        let ghost with_start = texts(out@);
        let mut y: usize = 0;
        while y < family2.len()
            invariant
                y <= family2@.len(),
                x < family1@.len(),
                *a == family1@[x as int],
                crossable_families(family1@, family2@),
                texts(out@) == with_start + cross_with(*a, family2@, y as int),
            decreases family2@.len() - y,
        {
            let b = &family2[y];
            proof {
                assert(family2@[y as int].wf());
                assert(family1@[x as int].num_vertices + family2@[y as int].num_vertices + 2 <= 62);
            }
            let u = a.union(b);
            let e1 = a.edges.len();
            let e2 = b.edges.len();
            let total = u.edges.len();
            let ghost pair_start = texts(out@);
            let mut i: usize = 0;
            while i < e1
                invariant
                    i <= e1 == a.edges@.len(),
                    e2 == b.edges@.len(),
                    u.num_vertices == a.num_vertices + b.num_vertices,
                    u.num_vertices + 2 <= 62,
                    u.edges@ == union_edges(*a, *b),
                    u.edges@.len() == e1 + e2,
                    total == e1 + e2,
                    texts(out@) == pair_start + cross_pair(*a, *b, i as int),
                decreases e1 - i,
            {
                let ghost row_start = texts(out@);
                let mut j: usize = 0;
                while j < e2
                    invariant
                        i < e1 == a.edges@.len(),
                        j <= e2 == b.edges@.len(),
                        u.num_vertices == a.num_vertices + b.num_vertices,
                        u.num_vertices + 2 <= 62,
                        u.edges@ == union_edges(*a, *b),
                        u.edges@.len() == e1 + e2,
                        total == e1 + e2,
                        texts(out@) == row_start + cross_row(*a, *b, i as int, j as int),
                    decreases e2 - j,
                {
                    let h = u.add_edge_across(i, j + e1);
                    let code = h.to_g6();
                    proof {
                        let ghost ae = across_edges(
                            u.num_vertices,
                            u.edges@,
                            i as int,
                            j + e1,
                        );
                        lemma_same_multiset_same_set(h.edges@, ae);
                        lemma_encoding_same_set(h.num_vertices as int, h.edges@, ae);
                    }
                    let ghost prev = out@;
                    out.push(code);
                    proof {
                        assert(texts(out@) =~= texts(prev).push(code@));
                        assert(texts(out@) =~= row_start + cross_row(*a, *b, i as int, j + 1));
                    }
                    j = j + 1;
                }
                proof {
                    assert(texts(out@) =~= pair_start + cross_pair(*a, *b, i + 1));
                }
                i = i + 1;
            }
            proof {
                assert(texts(out@) =~= with_start + cross_with(*a, family2@, y + 1));
            }
            y = y + 1;
        }
        proof {
            assert(texts(out@) =~= cross_join_codes(family1@, family2@, x + 1));
        }
        x = x + 1;
    }
    out
}

/// The splits `g = l1 + l2` with `3 <= l1 < m`, `l1 < g - 3` and `l1 >= l2`,
/// by increasing `l1`.
pub open spec fn partition_prefix(g: int, m: int) -> Seq<(usize, usize)>
    decreases m,
{
    if m <= 3 {
        Seq::empty()
    } else {
        let l1 = m - 1;
        let rest = partition_prefix(g, m - 1);
        if l1 < g - 3 && l1 >= g - l1 {
            rest.push((l1 as usize, (g - l1) as usize))
        } else {
            rest
        }
    }
}

/// The genus splits whose two families are joined across in the base layer.
pub fn partitions(g: usize) -> (r: Vec<(usize, usize)>)
    ensures
        r@ == partition_prefix(g as int, g as int),
{
    let mut out: Vec<(usize, usize)> = Vec::new();
    let mut l1: usize = 3;
    if g <= 3 {
        proof {
            assert(partition_prefix(g as int, g as int) =~= Seq::<(usize, usize)>::empty());
        }
        return out;
    }
    while l1 < g
        invariant
            3 <= l1 <= g,
            out@ == partition_prefix(g as int, l1 as int),
        decreases g - l1,
    {
        if l1 < g - 3 && l1 >= g - l1 {
            out.push((l1, g - l1));
        }
        l1 = l1 + 1;
    }
    out
}

/// What computing the family `(g, d)` consists of.
pub enum FamilyStep {
    /// Nothing: the parameters are infeasible.
    Skip,
    /// Contract the graphs of `(g, d - 1)` at the edge positions `0 ..= last`.
    Contract { last: usize },
    /// Build the base layer: the tetrastring of `seed_blocks` blocks, the
    /// cross-joins of the families of each split, and the self-joins of
    /// `(g - 1, 0)` over the edge positions below `self_join_limit`.
    Base {
        seed_blocks: Option<usize>,
        splits: Vec<(usize, usize)>,
        self_join_limit: Option<usize>,
    },
}

/// Decides how the family `(g, d)` is computed from the smaller ones.
pub fn plan_family(g: usize, d: usize) -> (r: FamilyStep)
    requires
        3 * g <= usize::MAX,
    ensures
        r is Skip <==> !feasible(g as int, d as int),
        feasible(g as int, d as int) && d > 0 ==> r == (FamilyStep::Contract {
            last: target_edges(g as int, d as int) as usize,
        }),
        feasible(g as int, d as int) && d == 0 ==> (r matches FamilyStep::Base {
            seed_blocks,
            splits,
            self_join_limit,
        } && seed_blocks == (if g % 2 == 1 {
            Some(((g - 1) / 2) as usize)
        } else {
            None
        }) && splits@ == partition_prefix(g as int, g as int) && self_join_limit == (if g > 3 {
            Some((target_edges(g as int, d as int) - 3) as usize)
        } else {
            None
        })),
{
    if !is_feasible(g, d) {
        return FamilyStep::Skip;
    }
    let (_n, e) = targets(g, d);
    if d > 0 {
        FamilyStep::Contract { last: e }
    } else {
        let seed_blocks = if g % 2 == 1 {
            Some((g - 1) / 2)
        } else {
            None
        };
        let self_join_limit = if g > 3 {
            Some(e - 3)
        } else {
            None
        };
        FamilyStep::Base { seed_blocks, splits: partitions(g), self_join_limit }
    }
}

} // verus!
