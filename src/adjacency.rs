use vstd::prelude::*;

use crate::graph::Graph;

verus! {

/// What `graph6_rs::Graph::from_g6` makes of a text: the vertex count and
/// the flattened adjacency matrix, or `None` when it rejects the text.
pub uninterp spec fn graph6_rs_parse(s: Seq<char>) -> Option<(usize, Seq<usize>)>;

/// Relies on `graph6_rs::Graph::from_g6`: on success its `n` and `bit_vec`,
/// the latter built as `vec![0; n * n]` and filled in place.
#[verifier::external_body]
fn parse_with_graph6_rs(s: &str) -> (r: Option<(usize, Vec<usize>)>)
    requires
        s@.len() >= 1,
        s@[0] != '?',
    ensures
        r is None <==> graph6_rs_parse(s@) is None,
        r matches Some(p) ==> graph6_rs_parse(s@) == Some((p.0, p.1@)) && p.1@.len() == p.0 * p.0,
{
    match graph6_rs::Graph::from_g6(s) {
        Ok(g) => Some((g.n, g.bit_vec)),
        Err(_) => None,
    }
}

/// The pairs `i < j` below `m` rows, row by row, whose matrix entry is set,
/// for a matrix of width `n` read on `nv` vertices.
pub open spec fn matrix_row(n: int, bv: Seq<usize>, nv: int, i: int, m: int) -> Seq<(u8, u8)>
    decreases m,
{
    if m <= 0 {
        Seq::empty()
    } else {
        let j = m - 1;
        let rest = matrix_row(n, bv, nv, i, m - 1);
        if i < j && bv[i * n + j] > 0 {
            rest.push((i as u8, j as u8))
        } else {
            rest
        }
    }
}

pub open spec fn matrix_edges(n: int, bv: Seq<usize>, nv: int, m: int) -> Seq<(u8, u8)>
    decreases m,
{
    if m <= 0 {
        Seq::empty()
    } else {
        matrix_edges(n, bv, nv, m - 1) + matrix_row(n, bv, nv, m - 1, nv)
    }
}

/// The graph whose edges are the set entries above the diagonal of an `n`
/// by `n` adjacency matrix, row by row; the vertex count is `n` cut to a byte.
pub fn graph_from_adjacency(n: usize, bit_vec: &Vec<usize>) -> (r: Graph)
    requires
        bit_vec@.len() == n * n,
    ensures
        r.num_vertices == n as u8,
        r.edges@ == matrix_edges(n as int, bit_vec@, (n as u8) as int, (n as u8) as int),
{
    let num_vertices: u8 = n as u8;
    let total: usize = bit_vec.len();
    let mut edges: Vec<(u8, u8)> = Vec::new();
    let mut i: u8 = 0;
    while i < num_vertices
        invariant
            i <= num_vertices,
            num_vertices as int <= n,
            bit_vec@.len() == n * n,
            total == n * n,
            edges@ == matrix_edges(n as int, bit_vec@, num_vertices as int, i as int),
        decreases num_vertices - i,
    {
        let ghost start = edges@;
        let mut j: u8 = 0;
        while j < num_vertices
            invariant
                i < num_vertices,
                j <= num_vertices,
                num_vertices as int <= n,
                bit_vec@.len() == n * n,
                total == n * n,
                edges@ == start + matrix_row(n as int, bit_vec@, num_vertices as int, i as int, j as int),
            decreases num_vertices - j,
        {
            proof {
                assert((i as int) * (n as int) + (j as int) < (n as int) * (n as int)) by (nonlinear_arith)
                    requires
                        (i as int) < n,
                        (j as int) < n,
                ;
            }
            if i < j && bit_vec[(i as usize) * n + (j as usize)] > 0 {
                edges.push((i, j));
            }
            proof {
                assert(edges@ =~= start + matrix_row(
                    n as int,
                    bit_vec@,
                    num_vertices as int,
                    i as int,
                    j + 1,
                ));
            }
            j = j + 1;
        }
        proof {
            assert(edges@ =~= matrix_edges(n as int, bit_vec@, num_vertices as int, i + 1));
        }
        i = i + 1;
    }
    Graph { num_vertices, edges }
}

impl Graph {
    /// Reads a graph from its graph6 text through `graph6_rs`; `None` when
    /// that parser rejects the text.
    pub fn from_g6_ref(g6_str: &str) -> (r: Option<Graph>)
        requires
            g6_str@.len() >= 1,
            g6_str@[0] != '?',
        ensures
            r is None <==> graph6_rs_parse(g6_str@) is None,
            r matches Some(h) ==> graph6_rs_parse(g6_str@) matches Some(p) && h.num_vertices
                == p.0 as u8 && h.edges@ == matrix_edges(
                p.0 as int,
                p.1,
                (p.0 as u8) as int,
                (p.0 as u8) as int,
            ),
    {
        match parse_with_graph6_rs(g6_str) {
            Some((n, bit_vec)) => Some(graph_from_adjacency(n, &bit_vec)),
            None => None,
        }
    }
}

} // verus!
