//! Adjacency-list graph representation shared by the shortest-path engines.
//!
//! Vertices are integer identifiers in `[0, num_vertex)`. The adjacency
//! structure maps each vertex to an ordered, growable list of outgoing edges;
//! insertion order is preserved and parallel edges are both retained.
//!
//! Two deliberate choices, documented here once:
//! - vertex ranges are exclusive (`0..num_vertex`) everywhere, and every
//!   per-vertex array in the engines is sized `num_vertex`;
//! - edge insertion validates that both endpoints lie in `[0, num_vertex)`
//!   (`edge` demands it, `graph_from_numbers` reports an error), instead of
//!   letting an out-of-range id surface later as an index error.

use vstd::prelude::*;

verus! {

/// Sentinel distance standing for "unreached": half of `i32::MAX` (rounded
/// down), kept this small so that the sum of two sentinel values still fits in
/// an `i32`.
pub const INF: i32 = 0x3FFF_FFFF;

/// One outgoing edge: the neighbour it reaches and the weight of the edge.
#[derive(Debug, Clone, Copy, PartialEq, Eq, Structural)]
pub struct Node {
    pub value: usize,
    pub weight: i32,
}

impl Node {
    /// Builds one adjacency entry.
    pub fn new(value: usize, weight: i32) -> (n: Node)
        ensures
            n == (Node { value, weight }),
    {
        Node { value, weight }
    }
}

/// Failure of graph construction.
#[derive(Debug, Clone, Copy, PartialEq, Eq, Structural)]
pub enum GraphError {
    /// An edge named a vertex outside `[0, num_vertex)`.
    InvalidVertexId,
}

/// Weighted directed graph as an adjacency list. `num_vertex` and `num_edges`
/// are declared at construction; `num_edges` is a descriptive count only and
/// is not enforced against the number of insertions.
#[derive(Debug)]
pub struct Graph {
    pub num_vertex: usize,
    pub num_edges: usize,
    pub adj: Vec<Vec<Node>>,
}

impl Graph {
    /// The adjacency row of vertex `v`, as a sequence of edges.
    pub open spec fn row(self, v: int) -> Seq<Node> {
        self.adj@[v]@
    }

    /// Well-formed: one adjacency row per vertex, and every stored edge points
    /// inside `[0, num_vertex)`.
    pub open spec fn wf(self) -> bool {
        &&& self.adj@.len() == self.num_vertex
        &&& forall|v: int, k: int|
            0 <= v < self.num_vertex && 0 <= k < self.row(v).len() ==> (
            #[trigger] self.row(v)[k]).value < self.num_vertex
    }

    /// Every edge weight lies in `[lo, hi]`.
    pub open spec fn weights_in(self, lo: int, hi: int) -> bool {
        forall|v: int, k: int|
            0 <= v < self.adj@.len() && 0 <= k < self.row(v).len() ==> lo <= (
            #[trigger] self.row(v)[k]).weight <= hi
    }

    /// Non-negative weights, each at most the `INF` sentinel.
    pub open spec fn nonneg_weights(self) -> bool {
        self.weights_in(0, INF as int)
    }

    /// The declared vertex count.
    pub fn num_vertex(&self) -> (n: usize)
        ensures
            n == self.num_vertex,
    {
        self.num_vertex
    }

    /// Creates a graph with the declared counts and one empty adjacency row
    /// per vertex.
    pub fn new(num_vertex: usize, num_edges: usize) -> (g: Graph)
        ensures
            g.wf(),
            g.num_vertex == num_vertex,
            g.num_edges == num_edges,
            forall|v: int| 0 <= v < num_vertex ==> #[trigger] g.row(v).len() == 0,
    {
        let mut adj: Vec<Vec<Node>> = Vec::new();
        let mut i: usize = 0;
        while i < num_vertex
            invariant
                i <= num_vertex,
                adj@.len() == i,
                forall|v: int| 0 <= v < i ==> #[trigger] adj@[v]@.len() == 0,
            decreases num_vertex - i,
        {
            adj.push(Vec::new());
            i += 1;
        }
        Graph { num_vertex, num_edges, adj }
    }

    /// Appends the edge `origin -> destination` with the given weight to the
    /// origin's adjacency row. Parallel edges and self-loops are retained.
    pub fn edge(&mut self, origin: usize, destination: usize, destination_weight: i32)
        requires
            old(self).wf(),
            origin < old(self).num_vertex,
            destination < old(self).num_vertex,
        ensures
            final(self).wf(),
            final(self).num_vertex == old(self).num_vertex,
            final(self).num_edges == old(self).num_edges,
            final(self).row(origin as int) == old(self).row(origin as int).push(
                Node { value: destination, weight: destination_weight },
            ),
            forall|v: int|
                0 <= v < final(self).num_vertex && v != origin ==> #[trigger] final(self).row(v)
                    == old(self).row(v),
    {
        let node = Node::new(destination, destination_weight);
        self.adj[origin].push(node);
        proof {
            assert forall|v: int, k: int|
                0 <= v < self.num_vertex && 0 <= k < self.row(v).len() implies (
            #[trigger] self.row(v)[k]).value < self.num_vertex by {
                if v == origin as int {
                    if k < self.row(v).len() - 1 {
                        assert(self.row(v)[k] == old(self).row(v)[k]);
                    } else {
                        assert(self.row(v)[k] == node);
                    }
                } else {
                    assert(self.row(v) == old(self).row(v));
                }
            }
        }
    }

    /// The vertex identifiers `0, 1, ..., num_vertex - 1` in order.
    pub fn vertices_list(&self) -> (r: Vec<usize>)
        ensures
            r@.len() == self.num_vertex,
            forall|i: int| 0 <= i < r@.len() ==> #[trigger] r@[i] == i,
    {
        let mut r: Vec<usize> = Vec::new();
        let mut i: usize = 0;
        while i < self.num_vertex
            invariant
                i <= self.num_vertex,
                r@.len() == i,
                forall|j: int| 0 <= j < i ==> #[trigger] r@[j] == j,
            decreases self.num_vertex - i,
        {
            r.push(i);
            i += 1;
        }
        r
    }

    /// The neighbours of `vertice`, in insertion order, duplicates kept; empty
    /// when the vertex has no outgoing edges or lies out of range.
    pub fn vizinhos(&self, vertice: &usize) -> (r: Vec<usize>)
        ensures
            r@ == spec_vizinhos(*self, *vertice),
    {
        let mut r: Vec<usize> = Vec::new();
        if *vertice >= self.adj.len() {
            assert(r@ =~= spec_vizinhos(*self, *vertice));
            return r;
        }
        let row = &self.adj[*vertice];
        let mut k: usize = 0;
        while k < row.len()
            invariant
                k <= row@.len(),
                r@.len() == k,
                forall|j: int| 0 <= j < k ==> #[trigger] r@[j] == row@[j].value,
            decreases row@.len() - k,
        {
            r.push(row[k].value);
            k += 1;
        }
        assert(r@ =~= spec_vizinhos(*self, *vertice));
        r
    }

    /// The neighbour reached by the cheapest outgoing edge of `vertice`; ties
    /// resolve to the edge inserted first, and an edge of weight `i32::MAX` is
    /// never chosen.
    pub fn vizinho_mais_perto(&self, vertice: &usize) -> (r: Option<usize>)
        ensures
            r == spec_vizinho_mais_perto(*self, *vertice),
    {
        if *vertice >= self.adj.len() {
            return None;
        }
        let mut distancia_minima = i32::MAX;
        let mut escolhido: Option<usize> = None;
        let row = &self.adj[*vertice];
        let mut k: usize = 0;
        while k < row.len()
            invariant
                k <= row@.len(),
                k >= 1 ==> ({
                    let m = argmin_upto(row@, k as int);
                    &&& 0 <= m < k
                    &&& (row@[m].weight < i32::MAX ==> escolhido == Some(row@[m].value)
                        && distancia_minima == row@[m].weight)
                    &&& (row@[m].weight == i32::MAX ==> escolhido is None && distancia_minima
                        == i32::MAX)
                }),
                k == 0 ==> escolhido is None && distancia_minima == i32::MAX,
            decreases row@.len() - k,
        {
            proof {
                if k >= 1 {
                    lemma_argmin_upto(row@, k as int);
                }
            }
            if row[k].weight < distancia_minima {
                distancia_minima = row[k].weight;
                escolhido = Some(row[k].value);
            }
            k += 1;
        }
        proof {
            if row@.len() >= 1 {
                lemma_argmin_upto(row@, row@.len() as int);
            }
        }
        escolhido
    }

    /// The weight of the first edge from `origem` to `destino` in insertion
    /// order, or `None` when no such edge exists (parallel edges are not
    /// merged: first found wins).
    pub fn weight(&self, origem: &usize, destino: &usize) -> (r: Option<i32>)
        ensures
            r == spec_weight(*self, *origem, *destino),
    {
        if *origem >= self.adj.len() {
            return None;
        }
        let row = &self.adj[*origem];
        let mut k: usize = 0;
        while k < row.len()
            invariant
                k <= row@.len(),
                (*origem as int) < self.adj@.len(),
                row@ == self.row(*origem as int),
                first_weight_from(row@, *destino, 0) == first_weight_from(row@, *destino, k as int),
            decreases row@.len() - k,
        {
            if row[k].value == *destino {
                assert(first_weight_from(row@, *destino, k as int) == Some(row@[k as int].weight));
                return Some(row[k].weight);
            }
            k += 1;
        }
        None
    }
}

/// The neighbour values of `v`'s adjacency row, in order.
pub open spec fn spec_vizinhos(g: Graph, v: usize) -> Seq<usize> {
    if (v as int) < g.adj@.len() {
        g.row(v as int).map_values(|n: Node| n.value)
    } else {
        Seq::empty()
    }
}

/// Index of the first minimum-weight entry among `row[..k]` (for `k >= 1`).
pub open spec fn argmin_upto(row: Seq<Node>, k: int) -> int
    decreases k,
{
    if k <= 1 {
        0
    } else {
        let m = argmin_upto(row, k - 1);
        if row[k - 1].weight < row[m].weight {
            k - 1
        } else {
            m
        }
    }
}

/// `argmin_upto` indeed names the first minimum of the prefix.
pub proof fn lemma_argmin_upto(row: Seq<Node>, k: int)
    requires
        1 <= k <= row.len(),
    ensures
        0 <= argmin_upto(row, k) < k,
        forall|j: int| 0 <= j < k ==> #[trigger] row[j].weight >= row[argmin_upto(row, k)].weight,
        forall|j: int| 0 <= j < argmin_upto(row, k) ==> #[trigger] row[j].weight > row[argmin_upto(
            row,
            k,
        )].weight,
    decreases k,
{
    if k > 1 {
        lemma_argmin_upto(row, k - 1);
    }
}

/// What `Graph::vizinho_mais_perto` returns: the value of the first
/// minimum-weight entry, unless the row is empty, the vertex is out of range,
/// or even the minimum weight is `i32::MAX`.
pub open spec fn spec_vizinho_mais_perto(g: Graph, v: usize) -> Option<usize> {
    if (v as int) < g.adj@.len() {
        let row = g.row(v as int);
        if row.len() > 0 && row[argmin_upto(row, row.len() as int)].weight < i32::MAX {
            Some(row[argmin_upto(row, row.len() as int)].value)
        } else {
            None
        }
    } else {
        None
    }
}

/// Weight of the first entry toward `destino` among `row[k..]`.
pub open spec fn first_weight_from(row: Seq<Node>, destino: usize, k: int) -> Option<i32>
    decreases row.len() - k,
{
    if k < 0 || k >= row.len() {
        None
    } else if row[k].value == destino {
        Some(row[k].weight)
    } else {
        first_weight_from(row, destino, k + 1)
    }
}

/// What `Graph::weight` returns for the pair `(origem, destino)`.
pub open spec fn spec_weight(g: Graph, origem: usize, destino: usize) -> Option<i32> {
    if (origem as int) < g.adj@.len() {
        first_weight_from(g.row(origem as int), destino, 0)
    } else {
        None
    }
}

/// A triple of the text format names vertices in range when both endpoints,
/// 1-indexed, lie in `[1, nv]`.
pub open spec fn triple_ok(numbers: Seq<i32>, nv: int, t: int) -> bool {
    &&& 1 <= numbers[2 + 3 * t] <= nv
    &&& 1 <= numbers[2 + 3 * t + 1] <= nv
}

/// The edges that the first `t` triples contribute to vertex `v`'s row, in
/// order of appearance.
pub open spec fn edges_for(numbers: Seq<i32>, v: int, t: int) -> Seq<Node>
    decreases t,
{
    if t <= 0 {
        Seq::empty()
    } else {
        let p = edges_for(numbers, v, t - 1);
        let base = 2 + 3 * (t - 1);
        if numbers[base] - 1 == v {
            p.push(Node { value: (numbers[base + 1] - 1) as usize, weight: numbers[base + 2] })
        } else {
            p
        }
    }
}

/// Builds a graph from the whitespace-separated integers of the graph text
/// format: vertex count, edge count, then one `(origin, destination, weight)`
/// triple per edge, endpoints 1-indexed in the file and converted to 0-indexed
/// here. Reading and parsing the file is the caller's job; an edge whose
/// endpoint falls outside the declared range is reported as an error rather
/// than inserted. The declared edge count is kept as a descriptive field and
/// not checked against the number of triples.
pub fn graph_from_numbers(numbers: &Vec<i32>) -> (r: Result<Graph, GraphError>)
    requires
        numbers@.len() >= 2,
        (numbers@.len() - 2) % 3 == 0,
        numbers@[0] >= 0,
        numbers@[1] >= 0,
    ensures
        (r is Err) <==> (exists|t: int|
            0 <= t < (numbers@.len() - 2) / 3 && !triple_ok(numbers@, numbers@[0] as int, t)),
        r matches Ok(g) ==> ({
            &&& g.wf()
            &&& g.num_vertex == numbers@[0]
            &&& g.num_edges == numbers@[1]
            &&& forall|v: int|
                0 <= v < g.num_vertex ==> #[trigger] g.row(v) == edges_for(
                    numbers@,
                    v,
                    (numbers@.len() - 2) / 3,
                )
        }),
{
    let nv_i32 = numbers[0];
    let num_vertices = nv_i32 as usize;
    let declared_edges = numbers[1] as usize;
    let mut graph = Graph::new(num_vertices, declared_edges);
    let ntr = (numbers.len() - 2) / 3;
    proof {
        vstd::arithmetic::div_mod::lemma_fundamental_div_mod(numbers@.len() - 2, 3);
    }
    let mut t: usize = 0;
    while t < ntr
        invariant
            t <= ntr,
            ntr == (numbers@.len() - 2) / 3,
            3 * (ntr as int) <= numbers@.len() - 2,
            numbers@.len() >= 2,
            numbers@.len() <= usize::MAX,
            nv_i32 == numbers@[0],
            num_vertices == nv_i32 as usize,
            nv_i32 >= 0,
            graph.wf(),
            graph.num_vertex == num_vertices,
            graph.num_edges == declared_edges,
            forall|s: int| 0 <= s < t ==> triple_ok(numbers@, nv_i32 as int, s),
            forall|v: int|
                0 <= v < num_vertices ==> #[trigger] graph.row(v) == edges_for(
                    numbers@,
                    v,
                    t as int,
                ),
        decreases ntr - t,
    {
        proof {
            assert(3 * (ntr as int) <= numbers@.len() - 2);
            assert(3 * (t as int) + 3 <= 3 * (ntr as int)) by (nonlinear_arith)
                requires
                    t < ntr,
            ;
        }
        let base = 2 + 3 * t;
        let o = numbers[base];
        let d = numbers[base + 1];
        let w = numbers[base + 2];
        if o < 1 || o > nv_i32 || d < 1 || d > nv_i32 {
            assert(!triple_ok(numbers@, nv_i32 as int, t as int));
            return Err(GraphError::InvalidVertexId);
        }
        graph.edge((o - 1) as usize, (d - 1) as usize, w);
        proof {
            assert forall|v: int|
                0 <= v < num_vertices implies #[trigger] graph.row(v) == edges_for(
                numbers@,
                v,
                t + 1,
            ) by {
                assert(2 + 3 * ((t + 1) - 1) == base);
            }
        }
        t += 1;
    }
    Ok(graph)
}

/// Auxiliary numbering matrix for the grid scenario: `rows` rows of `cols`
/// consecutive integers, counting from 1 in row-major order.
pub fn create_ordered_matrix(rows: usize, cols: usize) -> (m: Vec<Vec<i32>>)
    requires
        rows * cols < i32::MAX,
    ensures
        m@.len() == rows,
        forall|y: int| 0 <= y < rows ==> #[trigger] m@[y]@.len() == cols,
        forall|y: int, x: int|
            0 <= y < rows && 0 <= x < cols ==> #[trigger] m@[y]@[x] == 1 + y * cols + x,
{
    let mut matrix: Vec<Vec<i32>> = Vec::new();
    let mut counter: i32 = 1;
    let mut y: usize = 0;
    while y < rows
        invariant
            y <= rows,
            rows * cols < i32::MAX,
            matrix@.len() == y,
            counter == 1 + y * cols,
            forall|yy: int| 0 <= yy < y ==> #[trigger] matrix@[yy]@.len() == cols,
            forall|yy: int, x: int|
                0 <= yy < y && 0 <= x < cols ==> #[trigger] matrix@[yy]@[x] == 1 + yy * cols + x,
        decreases rows - y,
    {
        let mut current_row: Vec<i32> = Vec::new();
        let mut x: usize = 0;
        while x < cols
            invariant
                x <= cols,
                y < rows,
                rows * cols < i32::MAX,
                current_row@.len() == x,
                counter == 1 + y * cols + x,
                forall|j: int| 0 <= j < x ==> #[trigger] current_row@[j] == 1 + y * cols + j,
            decreases cols - x,
        {
            proof {
                assert(y * cols + x + 1 <= rows * cols) by (nonlinear_arith)
                    requires
                        0 <= y < rows,
                        0 <= x < cols,
                ;
            }
            current_row.push(counter);
            counter = counter + 1;
            x += 1;
        }
        matrix.push(current_row);
        proof {
            assert((y + 1) * cols == y * cols + cols) by (nonlinear_arith);
        }
        y += 1;
    }
    matrix
}

/// Terrain weight of one map character: `'#'` is impassable, `'~'` costs 3,
/// and every other character (including `'.'`, `'S'` and `'G'`) costs 1.
pub open spec fn spec_get_peso(terreno: char) -> Option<i32> {
    if terreno == '#' {
        None
    } else if terreno == '~' {
        Some(3)
    } else {
        Some(1)
    }
}

/// Maps a map character to the weight of edges entering that cell.
pub fn get_peso(terreno: char) -> (r: Option<i32>)
    ensures
        r == spec_get_peso(terreno),
{
    match terreno {
        '.' => Some(1),
        '~' => Some(3),
        'S' | 'G' => Some(1),
        '#' => None,
        _ => Some(1),
    }
}


/// 1-indexed vertex id of the grid cell at column `x`, row `y`.
pub open spec fn cell_id(cols: int, y: int, x: int) -> int {
    y * cols + x + 1
}

/// The map characters as sequences.
pub open spec fn grid_view(m: Vec<Vec<char>>) -> Seq<Seq<char>> {
    m@.map_values(|r: Vec<char>| r@)
}

/// A cell is traversable when its terrain carries a weight.
pub open spec fn passavel(m: Seq<Seq<char>>, y: int, x: int) -> bool {
    spec_get_peso(m[y][x]) is Some
}

/// The edges out of the cell at `(x, y)`: one toward each traversable
/// 4-neighbour, in the order up, down, left, right, weighted by the
/// neighbour's terrain; none when the cell itself is an obstacle.
pub open spec fn cell_edges(m: Seq<Seq<char>>, rows: int, cols: int, y: int, x: int) -> Seq<
    (usize, usize, i32),
> {
    if !passavel(m, y, x) {
        Seq::empty()
    } else {
        let up = if y > 0 && passavel(m, y - 1, x) {
            seq![
                (
                    cell_id(cols, y, x) as usize,
                    cell_id(cols, y - 1, x) as usize,
                    spec_get_peso(m[y - 1][x])->0,
                ),
            ]
        } else {
            Seq::empty()
        };
        let down = if y + 1 < rows && passavel(m, y + 1, x) {
            seq![
                (
                    cell_id(cols, y, x) as usize,
                    cell_id(cols, y + 1, x) as usize,
                    spec_get_peso(m[y + 1][x])->0,
                ),
            ]
        } else {
            Seq::empty()
        };
        let left = if x > 0 && passavel(m, y, x - 1) {
            seq![
                (
                    cell_id(cols, y, x) as usize,
                    cell_id(cols, y, x - 1) as usize,
                    spec_get_peso(m[y][x - 1])->0,
                ),
            ]
        } else {
            Seq::empty()
        };
        let right = if x + 1 < cols && passavel(m, y, x + 1) {
            seq![
                (
                    cell_id(cols, y, x) as usize,
                    cell_id(cols, y, x + 1) as usize,
                    spec_get_peso(m[y][x + 1])->0,
                ),
            ]
        } else {
            Seq::empty()
        };
        up + down + left + right
    }
}

/// The edges of the first `x` cells of row `y`, concatenated in order.
pub open spec fn row_edges_upto(m: Seq<Seq<char>>, rows: int, cols: int, y: int, x: int) -> Seq<
    (usize, usize, i32),
>
    decreases x,
{
    if x <= 0 {
        Seq::empty()
    } else {
        row_edges_upto(m, rows, cols, y, x - 1) + cell_edges(m, rows, cols, y, x - 1)
    }
}

/// The edges of the first `y` rows of the grid, concatenated in row-major
/// order.
pub open spec fn grid_edges_upto(m: Seq<Seq<char>>, rows: int, cols: int, y: int) -> Seq<
    (usize, usize, i32),
>
    decreases y,
{
    if y <= 0 {
        Seq::empty()
    } else {
        grid_edges_upto(m, rows, cols, y - 1) + row_edges_upto(m, rows, cols, y - 1, cols)
    }
}

/// Builds the edge list of one grid cell, as `cell_edges` describes it.
fn arestas_da_celula(matrix: &Vec<Vec<char>>, y: usize, x: usize) -> (c: Vec<(usize, usize, i32)>)
    requires
        matrix@.len() >= 1,
        forall|t: int| 0 <= t < matrix@.len() ==> (#[trigger] matrix@[t])@.len() == matrix@[0]@.len(),
        matrix@.len() * matrix@[0]@.len() < i32::MAX,
        y < matrix@.len(),
        x < matrix@[0]@.len(),
    ensures
        c@ == cell_edges(
            grid_view(*matrix),
            matrix@.len() as int,
            matrix@[0]@.len() as int,
            y as int,
            x as int,
        ),
{
    let ghost gv = grid_view(*matrix);
    let rows = matrix.len();
    let cols = matrix[0].len();
    let mut c: Vec<(usize, usize, i32)> = Vec::new();
    proof {
        assert((y as int) * (cols as int) + (x as int) + 1 <= (rows as int) * (cols as int))
            by (nonlinear_arith)
            requires
                0 <= y < rows,
                0 <= x < cols,
        ;
        if y > 0 {
            assert((y as int - 1) * (cols as int) + (x as int) + 1 <= (rows as int) * (
            cols as int)) by (nonlinear_arith)
                requires
                    1 <= y < rows,
                    0 <= x < cols,
            ;
        }
        if y + 1 < rows {
            assert((y as int + 1) * (cols as int) + (x as int) + 1 <= (rows as int) * (
            cols as int)) by (nonlinear_arith)
                requires
                    0 <= y + 1 < rows,
                    0 <= x < cols,
            ;
        }
        if x + 1 < cols {
            assert((y as int) * (cols as int) + (x as int + 1) + 1 <= (rows as int) * (
            cols as int)) by (nonlinear_arith)
                requires
                    0 <= y < rows,
                    0 <= x + 1 < cols,
            ;
        }
        assert(gv[y as int] == matrix@[y as int]@);
        if y > 0 {
            assert(gv[y as int - 1] == matrix@[y as int - 1]@);
        }
        if y + 1 < rows {
            assert(gv[y as int + 1] == matrix@[y as int + 1]@);
        }
    }
    let no_atual_id = y * cols + x + 1;
    if get_peso(matrix[y][x]).is_some() {
        if y > 0 {
            if let Some(peso) = get_peso(matrix[y - 1][x]) {
                c.push((no_atual_id, (y - 1) * cols + x + 1, peso));
            }
        }
        if y + 1 < rows {
            if let Some(peso) = get_peso(matrix[y + 1][x]) {
                c.push((no_atual_id, (y + 1) * cols + x + 1, peso));
            }
        }
        if x > 0 {
            if let Some(peso) = get_peso(matrix[y][x - 1]) {
                c.push((no_atual_id, y * cols + (x - 1) + 1, peso));
            }
        }
        if x + 1 < cols {
            if let Some(peso) = get_peso(matrix[y][x + 1]) {
                c.push((no_atual_id, y * cols + (x + 1) + 1, peso));
            }
        }
    }
    proof {
        assert(c@ =~= cell_edges(gv, rows as int, cols as int, y as int, x as int));
    }
    c
}

/// Appends every entry of `extra` to `r`.
fn juntar_arestas(r: &mut Vec<(usize, usize, i32)>, extra: &Vec<(usize, usize, i32)>)
    ensures
        final(r)@ == old(r)@ + extra@,
{
    let mut m: usize = 0;
    while m < extra.len()
        invariant
            m <= extra@.len(),
            r@ == old(r)@ + extra@.take(m as int),
        decreases extra@.len() - m,
    {
        let ghost antes = r@;
        r.push(extra[m]);
        proof {
            assert(antes.push(extra@[m as int]) =~= old(r)@ + extra@.take(m as int + 1));
        }
        m += 1;
    }
    proof {
        assert(old(r)@ + extra@.take(extra@.len() as int) =~= old(r)@ + extra@);
    }
}

/// Lists the edges of the warehouse grid graph: each traversable cell
/// connects to each of its traversable 4-directional neighbours (scanned up,
/// down, left, right), with the weight of the terrain entered, and vertex ids
/// are 1-indexed in row-major order. Both endpoints must be traversable: no
/// edge leaves or enters an obstacle cell. Writing the edge list to a file,
/// with its vertex- and edge-count header, is the caller's job.
pub fn grid_to_edges(matrix: &Vec<Vec<char>>) -> (r: Vec<(usize, usize, i32)>)
    requires
        matrix@.len() >= 1,
        forall|y: int| 0 <= y < matrix@.len() ==> (#[trigger] matrix@[y])@.len() == matrix@[0]@.len(),
        matrix@.len() * matrix@[0]@.len() < i32::MAX,
    ensures
        r@ == grid_edges_upto(
            grid_view(*matrix),
            matrix@.len() as int,
            matrix@[0]@.len() as int,
            matrix@.len() as int,
        ),
{
    let ghost gv = grid_view(*matrix);
    let rows = matrix.len();
    let cols = matrix[0].len();
    let mut r: Vec<(usize, usize, i32)> = Vec::new();
    let mut y: usize = 0;
    while y < rows
        invariant
            y <= rows,
            rows == matrix@.len(),
            cols == matrix@[0]@.len(),
            rows >= 1,
            forall|t: int| 0 <= t < rows ==> (#[trigger] matrix@[t])@.len() == cols,
            rows * cols < i32::MAX,
            gv == grid_view(*matrix),
            r@ == grid_edges_upto(gv, rows as int, cols as int, y as int),
        decreases rows - y,
    {
        let mut x: usize = 0;
        while x < cols
            invariant
                x <= cols,
                y < rows,
                rows == matrix@.len(),
                cols == matrix@[0]@.len(),
                forall|t: int| 0 <= t < rows ==> (#[trigger] matrix@[t])@.len() == cols,
                rows * cols < i32::MAX,
                gv == grid_view(*matrix),
                r@ == grid_edges_upto(gv, rows as int, cols as int, y as int) + row_edges_upto(
                    gv,
                    rows as int,
                    cols as int,
                    y as int,
                    x as int,
                ),
            decreases cols - x,
        {
            let ghost antes = r@;
            let cell = arestas_da_celula(matrix, y, x);
            juntar_arestas(&mut r, &cell);
            proof {
                assert(antes + cell@ =~= grid_edges_upto(gv, rows as int, cols as int, y as int)
                    + row_edges_upto(gv, rows as int, cols as int, y as int, x as int + 1));
            }
            x += 1;
        }
        proof {
            assert(grid_edges_upto(gv, rows as int, cols as int, y as int) + row_edges_upto(
                gv,
                rows as int,
                cols as int,
                y as int,
                cols as int,
            ) =~= grid_edges_upto(gv, rows as int, cols as int, y as int + 1));
        }
        y += 1;
    }
    r
}

} // verus!
