use vstd::prelude::*;

use crate::graph::Graph;

verus! {

/// Whether the edge list joins `i` and `j`, in either order.
pub open spec fn has_edge(edges: Seq<(u8, u8)>, i: int, j: int) -> bool {
    edges.contains((i as u8, j as u8)) || edges.contains((j as u8, i as u8))
}

/// The adjacency bits of the upper triangle over the vertices below `m`,
/// column by column: for `j` in `1 .. m`, for `i` in `0 .. j`.
pub open spec fn tri_bits(edges: Seq<(u8, u8)>, m: int) -> Seq<bool>
    decreases m,
{
    if m <= 1 {
        Seq::empty()
    } else {
        tri_bits(edges, m - 1) + Seq::new((m - 1) as nat, |i: int| has_edge(edges, i, m - 1))
    }
}

pub open spec fn num_bits(n: int) -> int {
    n * (n - 1) / 2
}

/// Position of the pair `i < j` in the column-major upper triangle.
pub open spec fn pair_index(i: int, j: int) -> int {
    j * (j - 1) / 2 + i
}

pub open spec fn num_groups(len: int) -> int {
    (len + 5) / 6
}

/// Bit `k` of the sequence padded with zeros, as `0` or `1`.
pub open spec fn padded_bit(bits: Seq<bool>, k: int) -> int {
    if 0 <= k < bits.len() && bits[k] {
        1
    } else {
        0
    }
}

/// The first `t` bits of group `c`, most significant first.
pub open spec fn group_prefix(bits: Seq<bool>, c: int, t: int) -> int
    decreases t,
{
    if t <= 0 {
        0
    } else {
        2 * group_prefix(bits, c, t - 1) + padded_bit(bits, 6 * c + t - 1)
    }
}

/// The character that carries the value `v` (`0 ..= 63`).
pub open spec fn code_char(v: int) -> char {
    ((v + 63) as u8) as char
}

/// The graph6 text of a graph with `n` vertices and the given edges.
pub open spec fn g6_encoding(n: int, edges: Seq<(u8, u8)>) -> Seq<char> {
    let bits = tri_bits(edges, n);
    seq![code_char(n)] + Seq::new(
        num_groups(bits.len() as int) as nat,
        |c: int| code_char(group_prefix(bits, c, 6)),
    )
}

/// The number of vertices that a graph6 text announces.
pub open spec fn g6_order(s: Seq<char>) -> int {
    s[0] as int - 63
}

/// Weight of position `t` (`0 .. 6`) within a group.
pub open spec fn bit_weight(t: int) -> int {
    if t == 0 {
        32
    } else if t == 1 {
        16
    } else if t == 2 {
        8
    } else if t == 3 {
        4
    } else if t == 4 {
        2
    } else {
        1
    }
}

/// Bit `k` of the data that follows the header.
pub open spec fn g6_bit(s: Seq<char>, k: int) -> bool {
    ((s[1 + k / 6] as int - 63) / bit_weight(k % 6)) % 2 == 1
}

/// A text that decodes: a header for at most 62 vertices, then enough data
/// characters, each in `'?' ..= '~'`.
pub open spec fn valid_g6(s: Seq<char>) -> bool {
    &&& s.len() >= 1
    &&& 63 <= s[0] as int <= 125
    &&& s.len() >= 1 + num_groups(num_bits(g6_order(s)))
    &&& forall|k: int|
        1 <= k < 1 + num_groups(num_bits(g6_order(s))) ==> 63 <= #[trigger] s[k] as int <= 126
}

/// The edges of column `j` with row below `i`, whose bit is set.
pub open spec fn decoded_column(s: Seq<char>, j: int, i: int) -> Seq<(u8, u8)>
    decreases i,
{
    if i <= 0 {
        Seq::empty()
    } else if g6_bit(s, pair_index(i - 1, j)) {
        decoded_column(s, j, i - 1).push(((i - 1) as u8, j as u8))
    } else {
        decoded_column(s, j, i - 1)
    }
}

/// The decoded edges among the vertices below `m`, column by column.
pub open spec fn decoded_columns(s: Seq<char>, m: int) -> Seq<(u8, u8)>
    decreases m,
{
    if m <= 1 {
        Seq::empty()
    } else {
        decoded_columns(s, m - 1) + decoded_column(s, m - 1, m - 1)
    }
}

pub open spec fn decoded_edges(s: Seq<char>) -> Seq<(u8, u8)> {
    decoded_columns(s, g6_order(s))
}

pub proof fn lemma_tri_bits_len(edges: Seq<(u8, u8)>, m: int)
    requires
        m >= 0,
    ensures
        tri_bits(edges, m).len() == num_bits(m),
    decreases m,
{
    if m > 1 {
        lemma_tri_bits_len(edges, m - 1);
        assert(m * (m - 1) == (m - 1) * (m - 1 - 1) + 2 * (m - 1)) by (nonlinear_arith);
    } else {
        assert(m * (m - 1) == 0) by (nonlinear_arith)
            requires
                0 <= m <= 1,
        ;
    }
}

pub proof fn lemma_pair_index_bound(i: int, j: int, n: int)
    requires
        0 <= i < j < n,
    ensures
        0 <= pair_index(i, j) < num_bits(n),
        pair_index(i, j) / 6 < num_groups(num_bits(n)),
{
    assert(j * (j - 1) >= 0) by (nonlinear_arith)
        requires
            j >= 1,
    ;
    assert((j + 1) * j <= n * (n - 1)) by (nonlinear_arith)
        requires
            j + 1 <= n,
            j >= 0,
    ;
    assert((j + 1) * j == j * (j - 1) + 2 * j) by (nonlinear_arith);
}

proof fn lemma_tri_bits_same_set(n: int, e1: Seq<(u8, u8)>, e2: Seq<(u8, u8)>)
    requires
        e1.to_set() == e2.to_set(),
    ensures
        tri_bits(e1, n) == tri_bits(e2, n),
    decreases n,
{
    broadcast use vstd::set::group_set_axioms;

    if n > 1 {
        lemma_tri_bits_same_set(n - 1, e1, e2);
        assert forall|p: (u8, u8)| e1.contains(p) == e2.contains(p) by {
            assert(e1.to_set().contains(p) == e1.contains(p));
            assert(e2.to_set().contains(p) == e2.contains(p));
            assert(e1.to_set().contains(p) == e2.to_set().contains(p));
        }
        assert(Seq::new((n - 1) as nat, |i: int| has_edge(e1, i, n - 1)) =~= Seq::new(
            (n - 1) as nat,
            |i: int| has_edge(e2, i, n - 1),
        ));
    }
}

/// The graph6 text depends on the edge set alone, not on the order of the list.
pub proof fn lemma_encoding_same_set(n: int, e1: Seq<(u8, u8)>, e2: Seq<(u8, u8)>)
    requires
        e1.to_set() == e2.to_set(),
    ensures
        g6_encoding(n, e1) == g6_encoding(n, e2),
{
    lemma_tri_bits_same_set(n, e1, e2);
}

proof fn lemma_code_char(v: int)
    requires
        0 <= v <= 63,
    ensures
        code_char(v) as int == v + 63,
{
}

proof fn lemma_group_bits(bits: Seq<bool>, c: int, t: int)
    requires
        0 <= t < 6,
    ensures
        0 <= group_prefix(bits, c, 6) <= 63,
        (group_prefix(bits, c, 6) / bit_weight(t)) % 2 == padded_bit(bits, 6 * c + t),
{
    reveal_with_fuel(group_prefix, 7);
    let b0 = padded_bit(bits, 6 * c);
    let b1 = padded_bit(bits, 6 * c + 1);
    let b2 = padded_bit(bits, 6 * c + 2);
    let b3 = padded_bit(bits, 6 * c + 3);
    let b4 = padded_bit(bits, 6 * c + 4);
    let b5 = padded_bit(bits, 6 * c + 5);
    assert(group_prefix(bits, c, 6) == 32 * b0 + 16 * b1 + 8 * b2 + 4 * b3 + 2 * b4 + b5);
    assert(0 <= b0 <= 1 && 0 <= b1 <= 1 && 0 <= b2 <= 1 && 0 <= b3 <= 1 && 0 <= b4 <= 1 && 0
        <= b5 <= 1);
    let v = 32 * b0 + 16 * b1 + 8 * b2 + 4 * b3 + 2 * b4 + b5;
    if t == 0 {
        assert(v / 32 == b0);
    } else if t == 1 {
        assert(v / 16 == 2 * b0 + b1);
    } else if t == 2 {
        assert(v / 8 == 4 * b0 + 2 * b1 + b2);
    } else if t == 3 {
        assert(v / 4 == 8 * b0 + 4 * b1 + 2 * b2 + b3);
    } else if t == 4 {
        assert(v / 2 == 16 * b0 + 8 * b1 + 4 * b2 + 2 * b3 + b4);
    }
}

/// Bit `pair_index(i, j)` of the triangle is the adjacency of `i` and `j`.
proof fn lemma_tri_bits_index(edges: Seq<(u8, u8)>, m: int, i: int, j: int)
    requires
        0 <= i < j < m,
    ensures
        tri_bits(edges, m).len() == num_bits(m),
        tri_bits(edges, m)[pair_index(i, j)] == has_edge(edges, i, j),
    decreases m,
{
    lemma_tri_bits_len(edges, m);
    lemma_tri_bits_len(edges, m - 1);
    if j < m - 1 {
        lemma_tri_bits_index(edges, m - 1, i, j);
        lemma_pair_index_bound(i, j, m - 1);
    } else {
        assert(pair_index(i, j) == num_bits(m - 1) + i);
    }
}

proof fn lemma_decoded_column(s: Seq<char>, j: int, i: int, a: u8, b: u8)
    requires
        0 <= i <= j <= 255,
    ensures
        decoded_column(s, j, i).contains((a, b)) <==> (b == j && a < i && g6_bit(
            s,
            pair_index(a as int, j),
        )),
    decreases i,
{
    if i > 0 {
        lemma_decoded_column(s, j, i - 1, a, b);
        let prev = decoded_column(s, j, i - 1);
        let pp = prev.push(((i - 1) as u8, j as u8));
        if g6_bit(s, pair_index(i - 1, j)) {
            assert(decoded_column(s, j, i) == pp);
            if pp.contains((a, b)) {
                if !prev.contains((a, b)) {
                    let q = choose|q: int| 0 <= q < pp.len() && pp[q] == (a, b);
                    assert(q == prev.len());
                }
            }
            if prev.contains((a, b)) {
                let q = choose|q: int| 0 <= q < prev.len() && prev[q] == (a, b);
                assert(pp[q] == (a, b));
            }
            if b == j && a == i - 1 {
                assert(pp[prev.len() as int] == (a, b));
            }
        }
    }
}

proof fn lemma_decoded_columns(s: Seq<char>, m: int, a: u8, b: u8)
    requires
        0 <= m <= 256,
    ensures
        decoded_columns(s, m).contains((a, b)) <==> (a < b < m && g6_bit(
            s,
            pair_index(a as int, b as int),
        )),
    decreases m,
{
    if m > 1 {
        lemma_decoded_columns(s, m - 1, a, b);
        lemma_decoded_column(s, m - 1, m - 1, a, b);
        let x = decoded_columns(s, m - 1);
        let y = decoded_column(s, m - 1, m - 1);
        if (x + y).contains((a, b)) {
            let q = choose|q: int| 0 <= q < (x + y).len() && (x + y)[q] == (a, b);
            if q < x.len() {
                assert(x[q] == (a, b));
            } else {
                assert(y[q - x.len()] == (a, b));
            }
        }
        if x.contains((a, b)) {
            let q = choose|q: int| 0 <= q < x.len() && x[q] == (a, b);
            assert((x + y)[q] == (a, b));
        }
        if y.contains((a, b)) {
            let q = choose|q: int| 0 <= q < y.len() && y[q] == (a, b);
            assert((x + y)[x.len() + q] == (a, b));
        }
    }
}

/// Encoding a well-formed graph and decoding the text gives back its vertex
/// count and its edge set, and encoding that again gives the same text.
pub proof fn lemma_g6_round_trip(g: Graph)
    requires
        g.wf(),
        g.num_vertices <= 62,
    ensures
        valid_g6(g6_encoding(g.num_vertices as int, g.edges@)),
        g6_order(g6_encoding(g.num_vertices as int, g.edges@)) == g.num_vertices,
        decoded_edges(g6_encoding(g.num_vertices as int, g.edges@)).to_set() == g.edge_set(),
        g6_encoding(
            g6_order(g6_encoding(g.num_vertices as int, g.edges@)),
            decoded_edges(g6_encoding(g.num_vertices as int, g.edges@)),
        ) == g6_encoding(g.num_vertices as int, g.edges@),
{
    broadcast use vstd::set::group_set_axioms;

    let n = g.num_vertices as int;
    let edges = g.edges@;
    let enc = g6_encoding(n, edges);
    let bits = tri_bits(edges, n);
    lemma_tri_bits_len(edges, n);
    lemma_code_char(n);
    assert(enc[0] == code_char(n));
    assert forall|c: int| 0 <= c < num_groups(bits.len() as int) implies enc[1 + c] as int - 63
        == group_prefix(bits, c, 6) by {
        lemma_group_bits(bits, c, 0);
        lemma_code_char(group_prefix(bits, c, 6));
        assert(enc[1 + c] == code_char(group_prefix(bits, c, 6)));
    }
    assert forall|k: int| 1 <= k < 1 + num_groups(num_bits(g6_order(enc))) implies 63
        <= #[trigger] enc[k] as int <= 126 by {
        lemma_group_bits(bits, k - 1, 0);
        assert(enc[1 + (k - 1)] as int - 63 == group_prefix(bits, k - 1, 6));
    }
    assert(valid_g6(enc));
    assert forall|p: (u8, u8)| decoded_edges(enc).contains(p) == edges.contains(p) by {
        let (a, b) = p;
        lemma_decoded_columns(enc, n, a, b);
        if a < b < n {
            lemma_tri_bits_index(edges, n, a as int, b as int);
            lemma_pair_index_bound(a as int, b as int, n);
            let k = pair_index(a as int, b as int);
            lemma_group_bits(bits, k / 6, k % 6);
            assert(enc[1 + k / 6] as int - 63 == group_prefix(bits, k / 6, 6));
            assert(6 * (k / 6) + k % 6 == k);
            if edges.contains((b, a)) {
                let q = choose|q: int| 0 <= q < edges.len() && edges[q] == (b, a);
                assert(edges[q].0 < edges[q].1);
            }
        } else if edges.contains(p) {
            let q = choose|q: int| 0 <= q < edges.len() && edges[q] == p;
            assert(edges[q].0 < edges[q].1 && edges[q].1 < n);
        }
    }
    assert(decoded_edges(enc).to_set() =~= edges.to_set());
    lemma_encoding_same_set(n, decoded_edges(enc), edges);
}

/// Relies on std's `String::push`: appends one character.
#[verifier::external_body]
fn push_char(s: &mut String, c: char)
    ensures
        final(s)@ == old(s)@.push(c),
{
    s.push(c);
}

fn bit_weight_exec(t: usize) -> (r: u32)
    requires
        t < 6,
    ensures
        r == bit_weight(t as int),
{
    if t == 0 {
        32
    } else if t == 1 {
        16
    } else if t == 2 {
        8
    } else if t == 3 {
        4
    } else if t == 4 {
        2
    } else {
        1
    }
}

/// Whether `s` is a graph6 text that `Graph::from_g6` accepts.
pub fn is_g6(s: &str) -> (r: bool)
    ensures
        r == valid_g6(s@),
{
    let len = s.unicode_len();
    if len == 0 {
        return false;
    }
    let first = s.get_char(0) as u32;
    if first < 63 || first > 125 {
        return false;
    }
    let n: usize = (first - 63) as usize;
    proof {
        assert(n * (n - 1) <= 62 * 61) by (nonlinear_arith)
            requires
                n <= 62,
        ;
        assert(n * (n - 1) >= 0) by (nonlinear_arith);
    }
    let nbits: usize = if n >= 1 {
        n * (n - 1) / 2
    } else {
        0
    };
    proof {
        assert(num_bits(0) == 0);
        assert(nbits == num_bits(n as int));
    }
    let ngroups: usize = (nbits + 5) / 6;
    if len < 1 + ngroups {
        return false;
    }
    let mut k: usize = 1;
    while k < 1 + ngroups
        invariant
            1 <= k <= 1 + ngroups,
            1 + ngroups <= len,
            len == s@.len(),
            n == g6_order(s@),
            ngroups == num_groups(num_bits(n as int)),
            forall|m: int| 1 <= m < k ==> 63 <= #[trigger] s@[m] as int <= 126,
        decreases 1 + ngroups - k,
    {
        let c = s.get_char(k) as u32;
        if c < 63 || c > 126 {
            return false;
        }
        k = k + 1;
    }
    true
}

impl Graph {
    /// Reads a graph from its graph6 text.
    pub fn from_g6(g6: &str) -> (r: Graph)
        requires
            valid_g6(g6@),
        ensures
            r.num_vertices == g6_order(g6@),
            r.edges@ == decoded_edges(g6@),
    {
        let ghost s = g6@;
        let n: u8 = (g6.get_char(0) as u32 - 63) as u8;
        let nn: usize = n as usize;
        proof {
            assert(nn * (nn - 1) <= 62 * 61) by (nonlinear_arith)
                requires
                    nn <= 62,
            ;
            assert(nn * (nn - 1) >= 0) by (nonlinear_arith);
        }
        let nbits: usize = if nn >= 1 {
            nn * (nn - 1) / 2
        } else {
            0
        };
        proof {
        assert(num_bits(0) == 0);
        assert(nbits == num_bits(n as int));
    }
    let ngroups: usize = (nbits + 5) / 6;
        let mut vals: Vec<u32> = Vec::new();
        let mut c: usize = 0;
        while c < ngroups
            invariant
                c <= ngroups,
                s == g6@,
                valid_g6(s),
                n == g6_order(s),
                ngroups == num_groups(num_bits(n as int)),
                vals@.len() == c,
                forall|x: int| 0 <= x < c ==> #[trigger] vals@[x] == s[1 + x] as int - 63,
            decreases ngroups - c,
        {
            let ch = g6.get_char(1 + c) as u32;
            proof {
                assert(63 <= s[1 + c] as int <= 126);
            }
            vals.push(ch - 63);
            c = c + 1;
        }
        let mut edges: Vec<(u8, u8)> = Vec::new();
        let mut k: usize = 0;
        let mut j: u8 = 1;
        while j < n
            invariant
                1 <= j,
                j <= n || j == 1,
                n <= 62,
                s == g6@,
                valid_g6(s),
                n == g6_order(s),
                ngroups == num_groups(num_bits(n as int)),
                num_bits(n as int) <= 1891,
                vals@.len() == ngroups,
                forall|x: int| 0 <= x < ngroups ==> #[trigger] vals@[x] == s[1 + x] as int - 63,
                k == pair_index(0, j as int),
                edges@ == decoded_columns(s, j as int),
            decreases n - j,
        {
            let mut i: u8 = 0;
            while i < j
                invariant
                    i <= j < n,
                    n <= 62,
                    s == g6@,
                    valid_g6(s),
                    n == g6_order(s),
                    ngroups == num_groups(num_bits(n as int)),
                    num_bits(n as int) <= 1891,
                    vals@.len() == ngroups,
                    forall|x: int|
                        0 <= x < ngroups ==> #[trigger] vals@[x] == s[1 + x] as int - 63,
                    k == pair_index(i as int, j as int),
                    edges@ == decoded_columns(s, j as int) + decoded_column(s, j as int, i as int),
                decreases j - i,
            {
                proof {
                    lemma_pair_index_bound(i as int, j as int, n as int);
                }
                let val = vals[k / 6];
                let w = bit_weight_exec(k % 6);
                if (val / w) % 2 == 1 {
                    edges.push((i, j));
                }
                proof {
                    assert(edges@ =~= decoded_columns(s, j as int) + decoded_column(
                        s,
                        j as int,
                        i as int + 1,
                    ));
                }
                k = k + 1;
                i = i + 1;
            }
            proof {
                assert(edges@ =~= decoded_columns(s, j as int + 1));
                assert(pair_index(0, j + 1) == pair_index(j as int, j as int)) by (nonlinear_arith);
            }
            j = j + 1;
        }
        proof {
            assert(j == n || (n <= 1 && j == 1));
            if n <= 1 {
                assert(decoded_columns(s, 1) =~= Seq::<(u8, u8)>::empty());
                assert(decoded_columns(s, n as int) =~= Seq::<(u8, u8)>::empty());
            }
        }
        Graph { num_vertices: n, edges }
    }

    /// Whether some edge joins `i` and `j`, in either order.
    pub fn has_edge(&self, i: u8, j: u8) -> (r: bool)
        ensures
            r == has_edge(self.edges@, i as int, j as int),
    {
        let mut k: usize = 0;
        while k < self.edges.len()
            invariant
                k <= self.edges@.len(),
                forall|m: int|
                    0 <= m < k ==> self.edges@[m] != (i, j) && self.edges@[m] != (j, i),
            decreases self.edges@.len() - k,
        {
            let (a, b) = self.edges[k];
            if (a == i && b == j) || (a == j && b == i) {
                proof {
                    assert(self.edges@[k as int] == (a, b));
                }
                return true;
            }
            k = k + 1;
        }
        false
    }

    /// The graph6 text of the graph.
    pub fn to_g6(&self) -> (r: String)
        requires
            self.num_vertices <= 62,
        ensures
            r@ == g6_encoding(self.num_vertices as int, self.edges@),
    {
        let n = self.num_vertices;
        let ghost edges = self.edges@;
        let mut result = String::new();
        push_char(&mut result, (n + 63) as char);
        let mut bits: Vec<bool> = Vec::new();
        let mut j: u8 = 1;
        while j < n
            invariant
                1 <= j,
                j <= n || j == 1,
                n <= 62,
                edges == self.edges@,
                bits@ == tri_bits(edges, j as int),
            decreases n - j,
        {
            let mut i: u8 = 0;
            while i < j
                invariant
                    i <= j < n,
                    n <= 62,
                    edges == self.edges@,
                    bits@ == tri_bits(edges, j as int) + Seq::new(
                        i as nat,
                        |x: int| has_edge(edges, x, j as int),
                    ),
                decreases j - i,
            {
                let b = self.has_edge(i, j);
                bits.push(b);
                proof {
                    assert(Seq::new((i + 1) as nat, |x: int| has_edge(edges, x, j as int))
                        =~= Seq::new(i as nat, |x: int| has_edge(edges, x, j as int)).push(b));
                }
                i = i + 1;
            }
            proof {
                assert(bits@ =~= tri_bits(edges, j + 1));
            }
            j = j + 1;
        }
        proof {
            assert(j == n || (n == 0 && j == 1));
            assert(bits@ == tri_bits(edges, j as int));
            if n == 0 {
                assert(tri_bits(edges, 1) =~= Seq::<bool>::empty());
                assert(tri_bits(edges, 0) =~= Seq::<bool>::empty());
            }
            assert(bits@ == tri_bits(edges, n as int));
            lemma_tri_bits_len(edges, n as int);
            assert(n * (n - 1) <= 62 * 61) by (nonlinear_arith)
                requires
                    n <= 62,
            ;
            assert(num_bits(n as int) <= 1891);
        }
        let ghost all_bits = bits@;
        let ghost header = result@;
        let ngroups: usize = (bits.len() + 5) / 6;
        let mut c: usize = 0;
        while c < ngroups
            invariant
                c <= ngroups,
                ngroups == num_groups(all_bits.len() as int),
                bits@ == all_bits,
                all_bits.len() <= 1891,
                result@ == header + Seq::new(
                    c as nat,
                    |x: int| code_char(group_prefix(all_bits, x, 6)),
                ),
            decreases ngroups - c,
        {
            let mut value: u8 = 0;
            let mut t: usize = 0;
            while t < 6
                invariant
                    t <= 6,
                    c < ngroups,
                    ngroups == num_groups(all_bits.len() as int),
                    bits@ == all_bits,
                    all_bits.len() <= 1891,
                    value == group_prefix(all_bits, c as int, t as int),
                    value < pow2_int(t as int),
                decreases 6 - t,
            {
                let k: usize = 6 * c + t;
                proof {
                    reveal_with_fuel(pow2_int, 7);
                }
                let bit: u8 = if k < bits.len() && bits[k] {
                    1
                } else {
                    0
                };
                value = 2 * value + bit;
                t = t + 1;
            }
            proof {
                reveal_with_fuel(pow2_int, 7);
            }
            push_char(&mut result, (value + 63) as char);
            proof {
                assert(result@ =~= header + Seq::new(
                    (c + 1) as nat,
                    |x: int| code_char(group_prefix(all_bits, x, 6)),
                ));
            }
            c = c + 1;
        }
        proof {
            assert(result@ =~= g6_encoding(n as int, edges));
        }
        result
    }
}

/// `2` to the power `t`, for the small `t` of a group.
pub open spec fn pow2_int(t: int) -> int
    decreases t,
{
    if t <= 0 {
        1
    } else {
        2 * pow2_int(t - 1)
    }
}

} // verus!
