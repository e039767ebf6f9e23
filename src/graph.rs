use vstd::prelude::*;

verus! {

/// A simple undirected graph on the vertices `0 .. num_vertices`, with its
/// edges kept as an ordered list of pairs. Operators address edges by their
/// position in that list.
#[derive(Clone)]
pub struct Graph {
    pub num_vertices: u8,
    pub edges: Vec<(u8, u8)>,
}

/// The pair `{u, v}` written with its smaller endpoint first.
pub open spec fn ordered_pair(u: u8, v: u8) -> (u8, u8) {
    if u < v {
        (u, v)
    } else {
        (v, u)
    }
}

/// Lexicographic order on pairs, as std orders tuples.
pub open spec fn pair_le(a: (u8, u8), b: (u8, u8)) -> bool {
    a.0 < b.0 || (a.0 == b.0 && a.1 <= b.1)
}

pub open spec fn pairs_sorted(s: Seq<(u8, u8)>) -> bool {
    forall|i: int, j: int| 0 <= i < j < s.len() ==> pair_le(s[i], s[j])
}

/// Both endpoints shifted up by `k`.
pub open spec fn shift_pair(p: (u8, u8), k: u8) -> (u8, u8) {
    ((p.0 + k) as u8, (p.1 + k) as u8)
}

/// The edges of `tetrastring_graph(n_blocks)`: six per block.
pub open spec fn block_edge(n_blocks: int, i: int, t: int) -> (u8, u8) {
    if t == 0 {
        ((4 * i) as u8, (4 * i + 1) as u8)
    } else if t == 1 {
        ((4 * i) as u8, (4 * i + 2) as u8)
    } else if t == 2 {
        ((4 * i + 1) as u8, (4 * i + 2) as u8)
    } else if t == 3 {
        ((4 * i + 1) as u8, (4 * i + 3) as u8)
    } else if t == 4 {
        ((4 * i + 2) as u8, (4 * i + 3) as u8)
    } else {
        ((4 * i) as u8, (4 * ((i + 1) % n_blocks)) as u8)
    }
}

pub open spec fn tetrastring_edges(n_blocks: int) -> Seq<(u8, u8)> {
    Seq::new((6 * n_blocks) as nat, |k: int| block_edge(n_blocks, k / 6, k % 6))
}

impl Graph {
    /// Every edge has its smaller endpoint first and lies among the vertices.
    pub open spec fn wf(&self) -> bool {
        forall|k: int|
            0 <= k < self.edges@.len() ==> #[trigger] self.edges@[k].0 < self.edges@[k].1
                && self.edges@[k].1 < self.num_vertices
    }

    /// A well-formed graph with no edge listed twice.
    pub open spec fn is_simple(&self) -> bool {
        self.wf() && self.edges@.no_duplicates()
    }

    /// The edges as a set of pairs, forgetting their order.
    pub open spec fn edge_set(&self) -> Set<(u8, u8)> {
        self.edges@.to_set()
    }

    pub fn new(num_vertices: u8) -> (r: Graph)
        ensures
            r.num_vertices == num_vertices,
            r.edges@ == Seq::<(u8, u8)>::empty(),
    {
        Graph { num_vertices, edges: Vec::new() }
    }

    /// Appends the edge `{u, v}`, smaller endpoint first.
    pub fn add_edge(&mut self, u: u8, v: u8)
        ensures
            final(self).num_vertices == old(self).num_vertices,
            final(self).edges@ == old(self).edges@.push(ordered_pair(u, v)),
    {
        if u < v {
            self.edges.push((u, v));
        } else {
            self.edges.push((v, u));
        }
    }

    pub fn num_vertices(&self) -> (r: u8)
        ensures
            r == self.num_vertices,
    {
        self.num_vertices
    }

    pub fn edges(&self) -> (r: &Vec<(u8, u8)>)
        ensures
            r@ == self.edges@,
    {
        &self.edges
    }

    /// The complete graph on four vertices.
    pub fn tetrahedron_graph() -> (r: Graph)
        ensures
            r.num_vertices == 4,
            r.edges@ == seq![(0u8, 1u8), (0, 2), (0, 3), (1, 2), (1, 3), (2, 3)],
    {
        Graph { num_vertices: 4, edges: vec![(0, 1), (0, 2), (0, 3), (1, 2), (1, 3), (2, 3)] }
    }

    /// `n_blocks` copies of a tetrahedron less one edge, joined in a cycle.
    pub fn tetrastring_graph(n_blocks: u8) -> (r: Graph)
        requires
            4 * n_blocks <= 255,
        ensures
            r.num_vertices == 4 * n_blocks,
            r.edges@ == tetrastring_edges(n_blocks as int),
    {
        let n: u8 = 4 * n_blocks;
        let mut edges: Vec<(u8, u8)> = Vec::new();
        let mut i: u8 = 0;
        while i < n_blocks
            invariant
                i <= n_blocks,
                4 * n_blocks <= 255,
                forall|k: int|
                    0 <= k < 6 * i ==> #[trigger] edges@[k] == block_edge(
                        n_blocks as int,
                        k / 6,
                        k % 6,
                    ),
                edges@.len() == 6 * i,
            decreases n_blocks - i,
        {
            edges.push((4 * i, 4 * i + 1));
            edges.push((4 * i, 4 * i + 2));
            edges.push((4 * i + 1, 4 * i + 2));
            edges.push((4 * i + 1, 4 * i + 3));
            edges.push((4 * i + 2, 4 * i + 3));
            edges.push((4 * i, 4 * ((i + 1) % n_blocks)));
            i = i + 1;
        }
        proof {
            assert(edges@ =~= tetrastring_edges(n_blocks as int));
        }
        Graph { num_vertices: n, edges }
    }
}

} // verus!
