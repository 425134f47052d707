//! Bellman-Ford single-source shortest paths, tolerant of negative weights.
//!
//! The engine repeats full relaxation passes until a pass changes nothing or
//! `num_vertex` passes have elapsed; a relaxation that still fires on the
//! final pass proves a negative cycle and is reported as an explicit error
//! (`Err(NegativeCycleError)`) rather than an abort. Each pass relaxes every
//! edge against the distances the pass started from, which is the classic
//! pass-based reading of the algorithm and keeps every intermediate value
//! within `i32` range for the graph sizes this engine accepts.
//!
//! The result is specified exactly: the returned vectors equal a functional
//! model (`bf_state`), so two runs on the same graph return the same vectors,
//! and `Ok` is returned precisely when the model stabilises before the final
//! pass.

use crate::graph::Graph;
use crate::graph::INF;
use vstd::prelude::*;

verus! {

/// Largest vertex count this engine accepts.
pub const MAX_VERTICES: usize = 1000;

/// Largest edge-weight magnitude this engine accepts. The two limits keep
/// `MAX_VERTICES * MAX_WEIGHT` at most `INF`, so no partial path cost can
/// leave `i32` range.
pub const MAX_WEIGHT: i32 = 1000000;

/// Reported when a relaxation still fires on the final pass: some negative
/// cycle makes the shortest distance undefined.
#[derive(Debug, Clone, Copy, PartialEq, Eq, Structural)]
pub struct NegativeCycleError;

/// A distance vector as mathematical integers.
pub open spec fn ints(s: Seq<i32>) -> Seq<int> {
    s.map_values(|x: i32| x as int)
}

/// Initial distances: 0 at the source, `INF` elsewhere.
pub open spec fn dist0(n: nat, origem: int) -> Seq<int> {
    Seq::new(
        n,
        |i: int|
            if i == origem {
                0
            } else {
                INF as int
            },
    )
}

/// Initial predecessors: none.
pub open spec fn prev0(n: nat) -> Seq<Option<usize>> {
    Seq::new(n, |i: int| None)
}

/// Relaxes the edges of row `j` from entry `t` on, against the distances
/// `base` that the pass started from, threading the working state `(d, p)`.
pub open spec fn pass_row_from(
    g: Graph,
    base: Seq<int>,
    d: Seq<int>,
    p: Seq<Option<usize>>,
    j: int,
    t: int,
) -> (Seq<int>, Seq<Option<usize>>)
    decreases g.row(j).len() - t,
{
    if t < 0 || t >= g.row(j).len() {
        (d, p)
    } else {
        let e = g.row(j)[t];
        let cand = base[j] + e.weight;
        if cand < d[e.value as int] {
            pass_row_from(
                g,
                base,
                d.update(e.value as int, cand),
                p.update(e.value as int, Some(j as usize)),
                j,
                t + 1,
            )
        } else {
            pass_row_from(g, base, d, p, j, t + 1)
        }
    }
}

/// Relaxes the rows from `j` on, in vertex order.
pub open spec fn pass_rows_from(
    g: Graph,
    base: Seq<int>,
    d: Seq<int>,
    p: Seq<Option<usize>>,
    j: int,
) -> (Seq<int>, Seq<Option<usize>>)
    decreases g.num_vertex - j,
{
    if j < 0 || j >= g.num_vertex {
        (d, p)
    } else {
        let s = pass_row_from(g, base, d, p, j, 0);
        pass_rows_from(g, base, s.0, s.1, j + 1)
    }
}

/// One full relaxation pass from the state `(d, p)`.
pub open spec fn bf_pass(g: Graph, d: Seq<int>, p: Seq<Option<usize>>) -> (
    Seq<int>,
    Seq<Option<usize>>,
) {
    pass_rows_from(g, d, d, p, 0)
}

/// The state after `it` full passes from the initial state.
pub open spec fn bf_state(g: Graph, origem: usize, it: nat) -> (Seq<int>, Seq<Option<usize>>)
    decreases it,
{
    if it == 0 {
        (dist0(g.num_vertex as nat, origem as int), prev0(g.num_vertex as nat))
    } else {
        let s = bf_state(g, origem, (it - 1) as nat);
        bf_pass(g, s.0, s.1)
    }
}

/// Row relaxation keeps the vector lengths and never increases a distance.
proof fn lemma_pass_row_from_le(
    g: Graph,
    base: Seq<int>,
    d: Seq<int>,
    p: Seq<Option<usize>>,
    j: int,
    t: int,
)
    requires
        g.wf(),
        0 <= j < g.num_vertex,
        d.len() == g.num_vertex,
        p.len() == g.num_vertex,
    ensures
        pass_row_from(g, base, d, p, j, t).0.len() == g.num_vertex,
        pass_row_from(g, base, d, p, j, t).1.len() == g.num_vertex,
        forall|v: int|
            0 <= v < g.num_vertex ==> #[trigger] pass_row_from(g, base, d, p, j, t).0[v] <= d[v],
    decreases g.row(j).len() - t,
{
    if 0 <= t < g.row(j).len() {
        let e = g.row(j)[t];
        let cand = base[j] + e.weight;
        if cand < d[e.value as int] {
            lemma_pass_row_from_le(
                g,
                base,
                d.update(e.value as int, cand),
                p.update(e.value as int, Some(j as usize)),
                j,
                t + 1,
            );
        } else {
            lemma_pass_row_from_le(g, base, d, p, j, t + 1);
        }
    }
}

/// Pass relaxation keeps the vector lengths and never increases a distance.
proof fn lemma_pass_rows_from_le(
    g: Graph,
    base: Seq<int>,
    d: Seq<int>,
    p: Seq<Option<usize>>,
    j: int,
)
    requires
        g.wf(),
        d.len() == g.num_vertex,
        p.len() == g.num_vertex,
    ensures
        pass_rows_from(g, base, d, p, j).0.len() == g.num_vertex,
        pass_rows_from(g, base, d, p, j).1.len() == g.num_vertex,
        forall|v: int|
            0 <= v < g.num_vertex ==> #[trigger] pass_rows_from(g, base, d, p, j).0[v] <= d[v],
    decreases g.num_vertex - j,
{
    if 0 <= j < g.num_vertex {
        lemma_pass_row_from_le(g, base, d, p, j, 0);
        let s = pass_row_from(g, base, d, p, j, 0);
        lemma_pass_rows_from_le(g, base, s.0, s.1, j + 1);
    }
}

/// Row relaxation keeps every distance at or above `lo - w` when the pass
/// baseline sits at or above `lo` and weights are bounded by `w`.
proof fn lemma_pass_row_from_lb(
    g: Graph,
    base: Seq<int>,
    d: Seq<int>,
    p: Seq<Option<usize>>,
    j: int,
    t: int,
    lo: int,
    w: int,
)
    requires
        g.wf(),
        g.weights_in(-w, w),
        0 <= j < g.num_vertex,
        d.len() == g.num_vertex,
        p.len() == g.num_vertex,
        base.len() == g.num_vertex,
        forall|v: int| 0 <= v < g.num_vertex ==> #[trigger] base[v] >= lo,
        forall|v: int| 0 <= v < g.num_vertex ==> #[trigger] d[v] >= lo - w,
    ensures
        forall|v: int|
            0 <= v < g.num_vertex ==> #[trigger] pass_row_from(g, base, d, p, j, t).0[v] >= lo - w,
    decreases g.row(j).len() - t,
{
    if 0 <= t < g.row(j).len() {
        let e = g.row(j)[t];
        assert(-w <= (g.row(j)[t]).weight <= w);
        let cand = base[j] + e.weight;
        assert(cand >= lo - w);
        if cand < d[e.value as int] {
            lemma_pass_row_from_lb(
                g,
                base,
                d.update(e.value as int, cand),
                p.update(e.value as int, Some(j as usize)),
                j,
                t + 1,
                lo,
                w,
            );
            assert(pass_row_from(g, base, d, p, j, t) == pass_row_from(
                g,
                base,
                d.update(e.value as int, cand),
                p.update(e.value as int, Some(j as usize)),
                j,
                t + 1,
            ));
        } else {
            lemma_pass_row_from_lb(g, base, d, p, j, t + 1, lo, w);
            assert(pass_row_from(g, base, d, p, j, t) == pass_row_from(g, base, d, p, j, t + 1));
        }
    }
}

/// Pass relaxation keeps every distance at or above `lo - w`.
proof fn lemma_pass_rows_from_lb(
    g: Graph,
    base: Seq<int>,
    d: Seq<int>,
    p: Seq<Option<usize>>,
    j: int,
    lo: int,
    w: int,
)
    requires
        g.wf(),
        g.weights_in(-w, w),
        d.len() == g.num_vertex,
        p.len() == g.num_vertex,
        base.len() == g.num_vertex,
        forall|v: int| 0 <= v < g.num_vertex ==> #[trigger] base[v] >= lo,
        forall|v: int| 0 <= v < g.num_vertex ==> #[trigger] d[v] >= lo - w,
    ensures
        forall|v: int|
            0 <= v < g.num_vertex ==> #[trigger] pass_rows_from(g, base, d, p, j).0[v] >= lo - w,
    decreases g.num_vertex - j,
{
    if 0 <= j < g.num_vertex {
        lemma_pass_row_from_lb(g, base, d, p, j, 0, lo, w);
        lemma_pass_row_from_le(g, base, d, p, j, 0);
        let s = pass_row_from(g, base, d, p, j, 0);
        lemma_pass_rows_from_lb(g, base, s.0, s.1, j + 1, lo, w);
        assert(pass_rows_from(g, base, d, p, j) == pass_rows_from(g, base, s.0, s.1, j + 1));
    }
}

/// Row relaxation keeps every distance non-negative when the baseline and
/// the weights are non-negative.
proof fn lemma_pass_row_from_nonneg(
    g: Graph,
    base: Seq<int>,
    d: Seq<int>,
    p: Seq<Option<usize>>,
    j: int,
    t: int,
)
    requires
        g.wf(),
        g.weights_in(0, INF as int),
        0 <= j < g.num_vertex,
        d.len() == g.num_vertex,
        p.len() == g.num_vertex,
        base.len() == g.num_vertex,
        forall|v: int| 0 <= v < g.num_vertex ==> #[trigger] base[v] >= 0,
        forall|v: int| 0 <= v < g.num_vertex ==> #[trigger] d[v] >= 0,
    ensures
        forall|v: int|
            0 <= v < g.num_vertex ==> #[trigger] pass_row_from(g, base, d, p, j, t).0[v] >= 0,
    decreases g.row(j).len() - t,
{
    if 0 <= t < g.row(j).len() {
        let e = g.row(j)[t];
        assert(0 <= (g.row(j)[t]).weight);
        let cand = base[j] + e.weight;
        if cand < d[e.value as int] {
            lemma_pass_row_from_nonneg(
                g,
                base,
                d.update(e.value as int, cand),
                p.update(e.value as int, Some(j as usize)),
                j,
                t + 1,
            );
            assert(pass_row_from(g, base, d, p, j, t) == pass_row_from(
                g,
                base,
                d.update(e.value as int, cand),
                p.update(e.value as int, Some(j as usize)),
                j,
                t + 1,
            ));
        } else {
            lemma_pass_row_from_nonneg(g, base, d, p, j, t + 1);
            assert(pass_row_from(g, base, d, p, j, t) == pass_row_from(g, base, d, p, j, t + 1));
        }
    }
}

/// Pass relaxation keeps every distance non-negative when the baseline and
/// the weights are non-negative.
proof fn lemma_pass_rows_from_nonneg(
    g: Graph,
    base: Seq<int>,
    d: Seq<int>,
    p: Seq<Option<usize>>,
    j: int,
)
    requires
        g.wf(),
        g.weights_in(0, INF as int),
        d.len() == g.num_vertex,
        p.len() == g.num_vertex,
        base.len() == g.num_vertex,
        forall|v: int| 0 <= v < g.num_vertex ==> #[trigger] base[v] >= 0,
        forall|v: int| 0 <= v < g.num_vertex ==> #[trigger] d[v] >= 0,
    ensures
        forall|v: int|
            0 <= v < g.num_vertex ==> #[trigger] pass_rows_from(g, base, d, p, j).0[v] >= 0,
    decreases g.num_vertex - j,
{
    if 0 <= j < g.num_vertex {
        lemma_pass_row_from_nonneg(g, base, d, p, j, 0);
        lemma_pass_row_from_le(g, base, d, p, j, 0);
        let s = pass_row_from(g, base, d, p, j, 0);
        lemma_pass_rows_from_nonneg(g, base, s.0, s.1, j + 1);
        assert(pass_rows_from(g, base, d, p, j) == pass_rows_from(g, base, s.0, s.1, j + 1));
    }
}

/// On a graph with non-negative weights every Bellman-Ford distance stays
/// non-negative and the source's distance stays exactly zero — the point
/// where this engine's result and Dijkstra's are pinned to the same value.
pub proof fn lemma_bf_nonneg(g: Graph, origem: usize, it: nat)
    requires
        g.wf(),
        origem < g.num_vertex,
        g.nonneg_weights(),
    ensures
        forall|v: int| 0 <= v < g.num_vertex ==> #[trigger] bf_state(g, origem, it).0[v] >= 0,
        bf_state(g, origem, it).0[origem as int] == 0,
    decreases it,
{
    lemma_bf_state_lens(g, origem, it);
    if it == 0 {
        assert(dist0(g.num_vertex as nat, origem as int)[origem as int] == 0);
    } else {
        lemma_bf_nonneg(g, origem, (it - 1) as nat);
        lemma_bf_state_lens(g, origem, (it - 1) as nat);
        let s = bf_state(g, origem, (it - 1) as nat);
        lemma_pass_rows_from_nonneg(g, s.0, s.0, s.1, 0);
        lemma_pass_rows_from_le(g, s.0, s.0, s.1, 0);
    }
}

/// The state vectors always have one entry per vertex.
pub proof fn lemma_bf_state_lens(g: Graph, origem: usize, it: nat)
    requires
        g.wf(),
        origem < g.num_vertex,
    ensures
        bf_state(g, origem, it).0.len() == g.num_vertex,
        bf_state(g, origem, it).1.len() == g.num_vertex,
    decreases it,
{
    if it > 0 {
        lemma_bf_state_lens(g, origem, (it - 1) as nat);
        let s = bf_state(g, origem, (it - 1) as nat);
        lemma_pass_rows_from_le(g, s.0, s.0, s.1, 0);
    }
}

/// After `it` passes the distances lie between `-(it * MAX_WEIGHT)` and the
/// entry of the initial vector (so `INF`, and 0 at the source).
pub proof fn lemma_bf_state_bounds(g: Graph, origem: usize, it: nat)
    requires
        g.wf(),
        origem < g.num_vertex,
        g.num_vertex <= MAX_VERTICES,
        g.weights_in(-MAX_WEIGHT as int, MAX_WEIGHT as int),
        it <= g.num_vertex,
    ensures
        bf_state(g, origem, it).0.len() == g.num_vertex,
        bf_state(g, origem, it).1.len() == g.num_vertex,
        forall|v: int|
            0 <= v < g.num_vertex ==> #[trigger] bf_state(g, origem, it).0[v] <= dist0(
                g.num_vertex as nat,
                origem as int,
            )[v],
        forall|v: int|
            0 <= v < g.num_vertex ==> #[trigger] bf_state(g, origem, it).0[v] >= -(it as int)
                * (MAX_WEIGHT as int),
    decreases it,
{
    if it > 0 {
        lemma_bf_state_bounds(g, origem, (it - 1) as nat);
        let s = bf_state(g, origem, (it - 1) as nat);
        lemma_pass_rows_from_le(g, s.0, s.0, s.1, 0);
        lemma_pass_rows_from_lb(
            g,
            s.0,
            s.0,
            s.1,
            0,
            -((it - 1) as int) * (MAX_WEIGHT as int),
            MAX_WEIGHT as int,
        );
        assert(-((it - 1) as int) * (MAX_WEIGHT as int) - MAX_WEIGHT as int == -(it as int) * (
        MAX_WEIGHT as int)) by (nonlinear_arith);
    }
}

/// Once a pass changes nothing, every later state is the same.
pub proof fn lemma_bf_stable(g: Graph, origem: usize, it: nat, q: nat)
    requires
        bf_state(g, origem, (it + 1) as nat) == bf_state(g, origem, it),
        q >= it,
    ensures
        bf_state(g, origem, q) == bf_state(g, origem, it),
    decreases q,
{
    if q > it {
        lemma_bf_stable(g, origem, it, (q - 1) as nat);
        assert(bf_state(g, origem, q) == bf_pass(
            g,
            bf_state(g, origem, (q - 1) as nat).0,
            bf_state(g, origem, (q - 1) as nat).1,
        ));
    }
}


/// All edges up to position `(j, t)` in scan order are relaxed under `d`.
pub open spec fn stable_upto(g: Graph, d: Seq<int>, j: int, t: int) -> bool {
    forall|jj: int, tt: int|
        0 <= jj < g.num_vertex && 0 <= tt < g.row(jj).len() && (jj < j || (jj == j && tt < t))
            ==> d[(#[trigger] g.row(jj)[tt]).value as int] <= d[jj] + g.row(jj)[tt].weight
}

/// Copies a distance vector.
fn copia(v: &Vec<i32>) -> (r: Vec<i32>)
    ensures
        r@ == v@,
{
    let mut r: Vec<i32> = Vec::new();
    let mut i: usize = 0;
    while i < v.len()
        invariant
            i <= v@.len(),
            r@ == v@.take(i as int),
        decreases v@.len() - i,
    {
        let ghost antes = r@;
        r.push(v[i]);
        proof {
            assert(antes.push(v@[i as int]) =~= v@.take(i as int + 1));
        }
        i += 1;
    }
    proof {
        assert(v@.take(v@.len() as int) =~= v@);
    }
    r
}

/// Single-source shortest paths tolerant of negative weights. Returns the
/// distance and predecessor vectors when the relaxation passes stabilise, and
/// `Err(NegativeCycleError)` when a relaxation still fires on the final pass
/// (a negative cycle, which makes shortest distances undefined). The `Ok`
/// vectors equal the functional model `bf_state` after `num_vertex` passes,
/// every edge is relaxed in them, and success happens exactly when the model
/// stabilises.
#[verifier::loop_isolation(false)]
pub fn bellman_ford(grafo: &Graph, origem: &usize) -> (r: Result<
    (Vec<i32>, Vec<Option<usize>>),
    NegativeCycleError,
>)
    requires
        grafo.wf(),
        *origem < grafo.num_vertex,
        grafo.num_vertex <= MAX_VERTICES,
        grafo.weights_in(-MAX_WEIGHT as int, MAX_WEIGHT as int),
    ensures
        r matches Ok(res) ==> ({
            &&& res.0@.len() == grafo.num_vertex
            &&& res.1@.len() == grafo.num_vertex
            &&& ints(res.0@) == bf_state(*grafo, *origem, grafo.num_vertex as nat).0
            &&& res.1@ == bf_state(*grafo, *origem, grafo.num_vertex as nat).1
            &&& bf_state(*grafo, *origem, (grafo.num_vertex - 1) as nat) == bf_state(
                *grafo,
                *origem,
                grafo.num_vertex as nat,
            )
            &&& res.0@[*origem as int] <= 0
            &&& forall|v: int| 0 <= v < grafo.num_vertex ==> -INF <= #[trigger] res.0@[v] <= INF
            &&& forall|v: int|
                0 <= v < grafo.num_vertex ==> ((#[trigger] res.1@[v]) matches Some(u) ==> u
                    < grafo.num_vertex)
            &&& stable_upto(*grafo, ints(res.0@), grafo.num_vertex as int, 0)
        }),
        r is Err ==> bf_state(*grafo, *origem, (grafo.num_vertex - 1) as nat).0 != bf_state(
            *grafo,
            *origem,
            grafo.num_vertex as nat,
        ).0,
{
    let num_v = grafo.num_vertex();
    let ghost n = num_v as nat;

    let mut d: Vec<i32> = Vec::new();
    let mut i: usize = 0;
    while i < num_v
        invariant
            i <= num_v,
            d@.len() == i,
            forall|v: int| 0 <= v < i ==> #[trigger] d@[v] == INF,
        decreases num_v - i,
    {
        d.push(INF);
        i += 1;
    }
    d[*origem] = 0;
    let mut anterior: Vec<Option<usize>> = Vec::new();
    let mut i: usize = 0;
    while i < num_v
        invariant
            i <= num_v,
            anterior@.len() == i,
            forall|v: int| 0 <= v < i ==> (#[trigger] anterior@[v]) is None,
        decreases num_v - i,
    {
        anterior.push(None);
        i += 1;
    }
    proof {
        assert(ints(d@) =~= dist0(n, *origem as int));
        assert(anterior@ =~= prev0(n));
    }

    let mut mudou = true;
    let mut iteracoes: usize = 0;
    while mudou && iteracoes < num_v
        invariant
            iteracoes <= num_v,
            d@.len() == num_v,
            anterior@.len() == num_v,
            ints(d@) == bf_state(*grafo, *origem, iteracoes as nat).0,
            anterior@ == bf_state(*grafo, *origem, iteracoes as nat).1,
            forall|v: int|
                0 <= v < num_v ==> ((#[trigger] anterior@[v]) matches Some(u) ==> u < num_v),
            !mudou ==> iteracoes >= 1 && bf_state(*grafo, *origem, iteracoes as nat) == bf_state(
                *grafo,
                *origem,
                (iteracoes - 1) as nat,
            ),
            !mudou ==> stable_upto(*grafo, ints(d@), num_v as int, 0),
            iteracoes == num_v ==> !mudou,
        decreases num_v - iteracoes,
    {
        mudou = false;
        let d_old = copia(&d);
        let ghost base = ints(d_old@);
        let ghost prev_in = anterior@;
        proof {
            lemma_bf_state_bounds(*grafo, *origem, iteracoes as nat);
        }
        let mut j: usize = 0;
        while j < num_v
            invariant
                j <= num_v,
                d@.len() == num_v,
                anterior@.len() == num_v,
                forall|v: int|
                    0 <= v < num_v ==> ((#[trigger] anterior@[v]) matches Some(u) ==> u < num_v),
                bf_state(*grafo, *origem, (iteracoes + 1) as nat) == pass_rows_from(
                    *grafo,
                    base,
                    ints(d@),
                    anterior@,
                    j as int,
                ),
                forall|v: int| 0 <= v < num_v ==> #[trigger] ints(d@)[v] <= base[v],
                !mudou ==> ints(d@) == base && anterior@ == prev_in,
                !mudou ==> stable_upto(*grafo, ints(d@), j as int, 0),
                iteracoes == num_v - 1 ==> !mudou,
            decreases num_v - j,
        {
            let ghost linha = grafo.row(j as int);
            let nedges = grafo.adj[j].len();
            let mut t: usize = 0;
            while t < nedges
                invariant
                    t <= nedges,
                    nedges == linha.len(),
                    d@.len() == num_v,
                    anterior@.len() == num_v,
                    forall|v: int|
                        0 <= v < num_v ==> ((#[trigger] anterior@[v]) matches Some(u) ==> u
                            < num_v),
                    bf_state(*grafo, *origem, (iteracoes + 1) as nat) == ({
                        let s = pass_row_from(
                            *grafo,
                            base,
                            ints(d@),
                            anterior@,
                            j as int,
                            t as int,
                        );
                        pass_rows_from(*grafo, base, s.0, s.1, j as int + 1)
                    }),
                    forall|v: int| 0 <= v < num_v ==> #[trigger] ints(d@)[v] <= base[v],
                    !mudou ==> ints(d@) == base && anterior@ == prev_in,
                    !mudou ==> stable_upto(*grafo, ints(d@), j as int, t as int),
                    iteracoes == num_v - 1 ==> !mudou,
                decreases nedges - t,
            {
                let e = grafo.adj[j][t];
                proof {
                    assert(-MAX_WEIGHT <= (grafo.row(j as int)[t as int]).weight <= MAX_WEIGHT);
                    assert(base[j as int] >= -(iteracoes as int) * (MAX_WEIGHT as int));
                    assert((iteracoes as int) * (MAX_WEIGHT as int) <= (MAX_VERTICES as int) * (
                    MAX_WEIGHT as int)) by (nonlinear_arith)
                        requires
                            0 <= iteracoes <= MAX_VERTICES,
                    ;
                    assert(base[j as int] <= dist0(n, *origem as int)[j as int]);
                    assert(base[j as int] <= INF);
                }
                let cand = d_old[j] + e.weight;
                let i = e.value;
                proof {
                    assert(cand as int == base[j as int] + (grafo.row(j as int)[t as int]).weight);
                    assert((grafo.row(j as int)[t as int]).value < num_v);
                }
                if cand < d[i] {
                    if iteracoes == num_v - 1 {
                        proof {
                            let cur_d = ints(d@);
                            let cur_p = anterior@;
                            let d2 = cur_d.update(i as int, cand as int);
                            let p2 = cur_p.update(i as int, Some(j));
                            assert(pass_row_from(*grafo, base, cur_d, cur_p, j as int, t as int)
                                == pass_row_from(*grafo, base, d2, p2, j as int, t as int + 1));
                            lemma_pass_row_from_le(*grafo, base, d2, p2, j as int, t as int + 1);
                            let s = pass_row_from(*grafo, base, d2, p2, j as int, t as int + 1);
                            lemma_pass_rows_from_le(*grafo, base, s.0, s.1, j as int + 1);
                            assert(bf_state(*grafo, *origem, (iteracoes + 1) as nat).0[i as int]
                                <= cand as int);
                            assert((cand as int) < cur_d[i as int]);
                            assert(cur_d[i as int] <= base[i as int]);
                            assert(bf_state(*grafo, *origem, (num_v - 1) as nat).0[i as int]
                                != bf_state(*grafo, *origem, num_v as nat).0[i as int]);
                        }
                        return Err(NegativeCycleError);
                    }
                    let ghost du = ints(d@);
                    let ghost pu = anterior@;
                    d[i] = cand;
                    anterior[i] = Some(j);
                    mudou = true;
                    proof {
                        assert(ints(d@) =~= du.update(i as int, cand as int));
                        assert(anterior@ =~= pu.update(i as int, Some(j)));
                        assert(pass_row_from(*grafo, base, du, pu, j as int, t as int)
                            == pass_row_from(
                            *grafo,
                            base,
                            ints(d@),
                            anterior@,
                            j as int,
                            t as int + 1,
                        ));
                    }
                } else {
                    proof {
                        assert(pass_row_from(*grafo, base, ints(d@), anterior@, j as int, t as int)
                            == pass_row_from(
                            *grafo,
                            base,
                            ints(d@),
                            anterior@,
                            j as int,
                            t as int + 1,
                        ));
                        if !mudou {
                            assert(ints(d@)[i as int] == base[i as int] && ints(d@)[j as int]
                                == base[j as int]);
                        }
                    }
                }
                t += 1;
            }
            proof {
                assert(pass_row_from(*grafo, base, ints(d@), anterior@, j as int, nedges as int)
                    == (ints(d@), anterior@));
            }
            j += 1;
        }
        proof {
            assert(pass_rows_from(*grafo, base, ints(d@), anterior@, num_v as int) == (
                ints(d@),
                anterior@,
            ));
        }
        iteracoes += 1;
    }
    proof {
        assert(!mudou);
        assert(iteracoes >= 1);
        assert(bf_state(*grafo, *origem, ((iteracoes - 1) + 1) as nat) == bf_state(
            *grafo,
            *origem,
            (iteracoes - 1) as nat,
        ));
        lemma_bf_stable(*grafo, *origem, (iteracoes - 1) as nat, (num_v - 1) as nat);
        lemma_bf_stable(*grafo, *origem, (iteracoes - 1) as nat, num_v as nat);
        assert(ints(d@) == bf_state(*grafo, *origem, num_v as nat).0);
        assert(anterior@ == bf_state(*grafo, *origem, num_v as nat).1);
        assert(bf_state(*grafo, *origem, (num_v - 1) as nat) == bf_state(
            *grafo,
            *origem,
            num_v as nat,
        ));
        lemma_bf_state_bounds(*grafo, *origem, num_v as nat);
        assert((num_v as int) * (MAX_WEIGHT as int) <= INF) by (nonlinear_arith)
            requires
                0 <= num_v <= MAX_VERTICES,
        ;
        assert(dist0(n, *origem as int)[*origem as int] == 0);
        assert forall|v: int| 0 <= v < num_v implies -INF <= #[trigger] d@[v] <= INF by {
            assert(ints(d@)[v] == d@[v] as int);
            assert(bf_state(*grafo, *origem, num_v as nat).0[v] >= -(num_v as int) * (
            MAX_WEIGHT as int));
            assert(bf_state(*grafo, *origem, num_v as nat).0[v] <= dist0(n, *origem as int)[v]);
        }
        assert(d@[*origem as int] as int == ints(d@)[*origem as int]);
        assert(d@[*origem as int] <= 0);
        assert(stable_upto(*grafo, ints(d@), num_v as int, 0));
    }
    Ok((d, anterior))
}

} // verus!
