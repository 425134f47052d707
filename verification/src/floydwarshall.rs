//! Floyd-Warshall all-pairs shortest paths with routing-table reconstruction.
//!
//! The engine is specified exactly: the returned matrices equal a functional
//! model (`fw_iter` over the seeded matrices), so two runs on the same graph
//! are interchangeable. Weights must be non-negative and at most `INF`.
//!
//! Two documented choices where the behaviour is pinned down deliberately:
//! parallel edges seed the cost matrix with their cheapest weight (not the
//! last one scanned), and self-loop edges are ignored so that the diagonal
//! stays at `cost[i][i] == 0`, `rot[i][i] == i` — a non-negative self-loop
//! never shortens a path.

use crate::graph::Graph;
use crate::graph::INF;
use crate::graph::Node;
use vstd::prelude::*;

verus! {

/// View of a cost matrix as a sequence of rows of mathematical integers.
pub open spec fn cost_view(m: Vec<Vec<i32>>) -> Seq<Seq<int>> {
    m@.map_values(|r: Vec<i32>| r@.map_values(|x: i32| x as int))
}

/// View of a routing matrix as a sequence of rows.
pub open spec fn rot_view(m: Vec<Vec<Option<usize>>>) -> Seq<Seq<Option<usize>>> {
    m@.map_values(|r: Vec<Option<usize>>| r@)
}

/// Minimum weight among the first `t` entries of `row` that lead to `j`, or
/// `INF` when none does.
pub open spec fn min_edge_upto(row: Seq<Node>, j: int, t: int) -> int
    decreases t,
{
    if t <= 0 {
        INF as int
    } else {
        let m = min_edge_upto(row, j, t - 1);
        if row[t - 1].value == j && row[t - 1].weight < m {
            row[t - 1].weight as int
        } else {
            m
        }
    }
}

/// Seeded cost matrix: 0 on the diagonal, the cheapest direct edge elsewhere,
/// `INF` where no direct edge exists.
pub open spec fn seed_cost(g: Graph) -> Seq<Seq<int>> {
    Seq::new(
        g.num_vertex as nat,
        |i: int|
            Seq::new(
                g.num_vertex as nat,
                |j: int|
                    if i == j {
                        0
                    } else {
                        min_edge_upto(g.row(i), j, g.row(i).len() as int)
                    },
            ),
    )
}

/// Seeded routing matrix: each vertex routes to itself, and `i` routes
/// straight to `j` exactly when a direct edge cheaper than `INF` exists.
pub open spec fn seed_rot(g: Graph) -> Seq<Seq<Option<usize>>> {
    Seq::new(
        g.num_vertex as nat,
        |i: int|
            Seq::new(
                g.num_vertex as nat,
                |j: int|
                    if i == j {
                        Some(i as usize)
                    } else if min_edge_upto(g.row(i), j, g.row(i).len() as int) < INF {
                        Some(j as usize)
                    } else {
                        None
                    },
            ),
    )
}

/// One pass of the cost matrix through intermediate vertex `k`.
pub open spec fn fw_cost_pass(c: Seq<Seq<int>>, k: int) -> Seq<Seq<int>> {
    Seq::new(
        c.len(),
        |i: int|
            Seq::new(
                c.len(),
                |j: int|
                    if c[i][k] + c[k][j] < c[i][j] {
                        c[i][k] + c[k][j]
                    } else {
                        c[i][j]
                    },
            ),
    )
}

/// One pass of the routing matrix: where the cost improves through `k`, the
/// first hop toward `k` is propagated.
pub open spec fn fw_rot_pass(c: Seq<Seq<int>>, r: Seq<Seq<Option<usize>>>, k: int) -> Seq<
    Seq<Option<usize>>,
> {
    Seq::new(
        c.len(),
        |i: int|
            Seq::new(
                c.len(),
                |j: int|
                    if c[i][k] + c[k][j] < c[i][j] {
                        r[i][k]
                    } else {
                        r[i][j]
                    },
            ),
    )
}

/// The matrices after passes through intermediate vertices `0, ..., k - 1`.
pub open spec fn fw_iter(c0: Seq<Seq<int>>, r0: Seq<Seq<Option<usize>>>, k: nat) -> (
    Seq<Seq<int>>,
    Seq<Seq<Option<usize>>>,
)
    decreases k,
{
    if k == 0 {
        (c0, r0)
    } else {
        let p = fw_iter(c0, r0, (k - 1) as nat);
        (fw_cost_pass(p.0, (k - 1) as int), fw_rot_pass(p.0, p.1, (k - 1) as int))
    }
}

/// Shape and range invariant of a cost matrix: square, zero diagonal, entries
/// in `[0, INF]`.
pub open spec fn cost_inv(c: Seq<Seq<int>>, n: int) -> bool {
    &&& c.len() == n
    &&& forall|i: int| 0 <= i < n ==> (#[trigger] c[i]).len() == n
    &&& forall|i: int| 0 <= i < n ==> #[trigger] c[i][i] == 0
    &&& forall|i: int, j: int| 0 <= i < n && 0 <= j < n ==> 0 <= #[trigger] c[i][j] <= INF
}

/// Invariant tying a routing matrix to its cost matrix: square, identity
/// diagonal, an entry exactly where the cost is finite, next hops in range.
pub open spec fn rot_inv(c: Seq<Seq<int>>, r: Seq<Seq<Option<usize>>>, n: int) -> bool {
    &&& r.len() == n
    &&& forall|i: int| 0 <= i < n ==> (#[trigger] r[i]).len() == n
    &&& forall|i: int| 0 <= i < n ==> #[trigger] r[i][i] == Some(i as usize)
    &&& forall|i: int, j: int|
        0 <= i < n && 0 <= j < n ==> ((#[trigger] r[i][j]) is Some <==> c[i][j] < INF)
    &&& forall|i: int, j: int|
        0 <= i < n && 0 <= j < n ==> ((#[trigger] r[i][j]) matches Some(u) ==> u < n)
}

/// A pass preserves both invariants and never changes row `k`, column `k`, or
/// the diagonal.
proof fn lemma_fw_pass_inv(c: Seq<Seq<int>>, r: Seq<Seq<Option<usize>>>, n: int, k: int)
    requires
        cost_inv(c, n),
        rot_inv(c, r, n),
        0 <= k < n,
    ensures
        cost_inv(fw_cost_pass(c, k), n),
        rot_inv(fw_cost_pass(c, k), fw_rot_pass(c, r, k), n),
        forall|i: int| 0 <= i < n ==> #[trigger] fw_cost_pass(c, k)[i][k] == c[i][k],
        forall|j: int| 0 <= j < n ==> #[trigger] fw_cost_pass(c, k)[k][j] == c[k][j],
        forall|i: int| 0 <= i < n ==> #[trigger] fw_rot_pass(c, r, k)[i][k] == r[i][k],
        forall|j: int| 0 <= j < n ==> #[trigger] fw_rot_pass(c, r, k)[k][j] == r[k][j],
{
    let nc = fw_cost_pass(c, k);
    let nr = fw_rot_pass(c, r, k);
    assert forall|i: int| 0 <= i < n implies #[trigger] nc[i][i] == 0 by {
        assert(c[i][k] + c[k][i] >= 0);
    }
    assert forall|i: int, j: int|
        0 <= i < n && 0 <= j < n implies ((#[trigger] nr[i][j]) is Some <==> nc[i][j] < INF) by {
        if c[i][k] + c[k][j] < c[i][j] {
            assert(c[i][k] < INF);
            assert(r[i][k] is Some);
        }
    }
}

/// Iterating passes preserves both invariants.
proof fn lemma_fw_iter_inv(c0: Seq<Seq<int>>, r0: Seq<Seq<Option<usize>>>, n: int, k: nat)
    requires
        cost_inv(c0, n),
        rot_inv(c0, r0, n),
        k <= n,
    ensures
        cost_inv(fw_iter(c0, r0, k).0, n),
        rot_inv(fw_iter(c0, r0, k).0, fw_iter(c0, r0, k).1, n),
    decreases k,
{
    if k > 0 {
        lemma_fw_iter_inv(c0, r0, n, (k - 1) as nat);
        lemma_fw_pass_inv(fw_iter(c0, r0, (k - 1) as nat).0, fw_iter(c0, r0, (k - 1) as nat).1, n, (
        k - 1) as int);
    }
}

/// All-pairs shortest paths. Returns the cost matrix (`cost[i][j]` is the
/// cheapest known cost from `i` to `j`, `INF` when `j` is unreachable) and the
/// routing matrix (`rot[i][j]` is the next hop from `i` toward `j`, `None`
/// when `j` is unreachable). The result equals the functional model `fw_iter`
/// over the seeded matrices, so a second run on the same graph returns the
/// same matrices; the diagonal is always `cost[i][i] == 0`, `rot[i][i] == i`.
#[verifier::loop_isolation(false)]
pub fn floyd_rot_n_cost(gr: &Graph) -> (res: (Vec<Vec<i32>>, Vec<Vec<Option<usize>>>))
    requires
        gr.wf(),
        gr.nonneg_weights(),
    ensures
        cost_view(res.0) == fw_iter(seed_cost(*gr), seed_rot(*gr), gr.num_vertex as nat).0,
        rot_view(res.1) == fw_iter(seed_cost(*gr), seed_rot(*gr), gr.num_vertex as nat).1,
        res.0@.len() == gr.num_vertex,
        res.1@.len() == gr.num_vertex,
        forall|i: int|
            0 <= i < gr.num_vertex ==> (#[trigger] res.0@[i])@.len() == gr.num_vertex && (
            #[trigger] res.1@[i])@.len() == gr.num_vertex,
        forall|i: int|
            0 <= i < gr.num_vertex ==> (#[trigger] res.0@[i])@[i] == 0 && (#[trigger] res.1@[i])@[i]
                == Some(i as usize),
        forall|i: int, j: int|
            0 <= i < gr.num_vertex && 0 <= j < gr.num_vertex ==> 0 <= #[trigger] res.0@[i]@[j]
                <= INF,
        forall|i: int, j: int|
            0 <= i < gr.num_vertex && 0 <= j < gr.num_vertex ==> ((#[trigger] res.1@[i]@[j])
                matches Some(u) ==> u < gr.num_vertex),
        forall|i: int, j: int|
            0 <= i < gr.num_vertex && 0 <= j < gr.num_vertex ==> ((#[trigger] res.1@[i]@[j])
                is Some <==> res.0@[i]@[j] < INF),
{
    let num_v = gr.num_vertex();
    let ghost n = num_v as int;

    // Matrices initialised with a zero/identity diagonal and INF/None
    // everywhere else.
    let mut cost: Vec<Vec<i32>> = Vec::new();
    let mut rot: Vec<Vec<Option<usize>>> = Vec::new();
    let mut i: usize = 0;
    while i < num_v
        invariant
            i <= num_v,
            cost@.len() == i,
            rot@.len() == i,
            forall|a: int| 0 <= a < i ==> (#[trigger] cost@[a])@.len() == num_v,
            forall|a: int| 0 <= a < i ==> (#[trigger] rot@[a])@.len() == num_v,
            forall|a: int, b: int|
                0 <= a < i && 0 <= b < num_v ==> #[trigger] cost@[a]@[b] == (if a == b {
                    0i32
                } else {
                    INF
                }),
            forall|a: int, b: int|
                0 <= a < i && 0 <= b < num_v ==> #[trigger] rot@[a]@[b] == (if a == b {
                    Some(a as usize)
                } else {
                    None::<usize>
                }),
        decreases num_v - i,
    {
        let mut crow: Vec<i32> = Vec::new();
        let mut rrow: Vec<Option<usize>> = Vec::new();
        let mut j: usize = 0;
        while j < num_v
            invariant
                j <= num_v,
                crow@.len() == j,
                rrow@.len() == j,
                forall|b: int|
                    0 <= b < j ==> #[trigger] crow@[b] == (if i == b {
                        0i32
                    } else {
                        INF
                    }),
                forall|b: int|
                    0 <= b < j ==> #[trigger] rrow@[b] == (if i == b {
                        Some(i)
                    } else {
                        None::<usize>
                    }),
            decreases num_v - j,
        {
            if j == i {
                crow.push(0);
                rrow.push(Some(i));
            } else {
                crow.push(INF);
                rrow.push(None);
            }
            j += 1;
        }
        cost.push(crow);
        rot.push(rrow);
        i += 1;
    }
    proof {
        assert(cost@.len() == num_v);
        assert(forall|a: int| 0 <= a < num_v ==> (#[trigger] cost@[a])@.len() == num_v);
        assert(forall|a: int| 0 <= a < num_v ==> (#[trigger] rot@[a])@.len() == num_v);
        assert(forall|a: int, b: int|
            0 <= a < num_v && 0 <= b < num_v ==> #[trigger] cost@[a]@[b] == (if a == b {
                0i32
            } else {
                INF
            }));
        assert(forall|a: int, b: int|
            0 <= a < num_v && 0 <= b < num_v ==> #[trigger] rot@[a]@[b] == (if a == b {
                Some(a as usize)
            } else {
                None::<usize>
            }));
    }

    // Seeding: each row takes the cheapest direct edge toward each neighbour;
    // self-loop edges are skipped so the diagonal stays zero.
    let mut i: usize = 0;
    while i < num_v
        invariant
            i <= num_v,
            cost@.len() == num_v,
            rot@.len() == num_v,
            forall|a: int| 0 <= a < num_v ==> (#[trigger] cost@[a])@.len() == num_v,
            forall|a: int| 0 <= a < num_v ==> (#[trigger] rot@[a])@.len() == num_v,
            forall|a: int, b: int|
                0 <= a < i && 0 <= b < num_v ==> #[trigger] cost@[a]@[b] as int == seed_cost(
                    *gr,
                )[a][b],
            forall|a: int, b: int|
                0 <= a < i && 0 <= b < num_v ==> #[trigger] rot@[a]@[b] == seed_rot(*gr)[a][b],
            forall|a: int, b: int|
                i <= a < num_v && 0 <= b < num_v ==> #[trigger] cost@[a]@[b] == (if a == b {
                    0i32
                } else {
                    INF
                }),
            forall|a: int, b: int|
                i <= a < num_v && 0 <= b < num_v ==> #[trigger] rot@[a]@[b] == (if a == b {
                    Some(a as usize)
                } else {
                    None::<usize>
                }),
        decreases num_v - i,
    {
        let ghost linha = gr.row(i as int);
        let nedges = gr.adj[i].len();
        let mut t: usize = 0;
        while t < nedges
            invariant
                t <= nedges,
                nedges == linha.len(),
                i < num_v,
                cost@.len() == num_v,
                rot@.len() == num_v,
                forall|a: int| 0 <= a < num_v ==> (#[trigger] cost@[a])@.len() == num_v,
                forall|a: int| 0 <= a < num_v ==> (#[trigger] rot@[a])@.len() == num_v,
                forall|a: int, b: int|
                    0 <= a < i && 0 <= b < num_v ==> #[trigger] cost@[a]@[b] as int == seed_cost(
                        *gr,
                    )[a][b],
                forall|a: int, b: int|
                    0 <= a < i && 0 <= b < num_v ==> #[trigger] rot@[a]@[b] == seed_rot(*gr)[a][b],
                forall|a: int, b: int|
                    i < a < num_v && 0 <= b < num_v ==> #[trigger] cost@[a]@[b] == (if a == b {
                        0i32
                    } else {
                        INF
                    }),
                forall|a: int, b: int|
                    i < a < num_v && 0 <= b < num_v ==> #[trigger] rot@[a]@[b] == (if a == b {
                        Some(a as usize)
                    } else {
                        None::<usize>
                    }),
                forall|b: int|
                    0 <= b < num_v ==> #[trigger] cost@[i as int]@[b] as int == (if i == b {
                        0
                    } else {
                        min_edge_upto(linha, b, t as int)
                    }),
                forall|b: int|
                    0 <= b < num_v ==> #[trigger] rot@[i as int]@[b] == (if i == b {
                        Some(i)
                    } else if min_edge_upto(linha, b, t as int) < INF {
                        Some(b as usize)
                    } else {
                        None::<usize>
                    }),
            decreases nedges - t,
        {
            proof {
                assert forall|b: int|
                    0 <= b < num_v && b != i as int implies 0 <= #[trigger] min_edge_upto(
                    linha,
                    b,
                    t as int,
                ) <= INF by {
                    lemma_min_edge_upto_range(linha, b, t as int, *gr, i as int);
                }
                assert forall|b: int| 0 <= b < num_v implies #[trigger] min_edge_upto(
                    linha,
                    b,
                    t as int + 1,
                ) == (if linha[t as int].value == b && linha[t as int].weight < min_edge_upto(
                    linha,
                    b,
                    t as int,
                ) {
                    linha[t as int].weight as int
                } else {
                    min_edge_upto(linha, b, t as int)
                }) by {
                    assert(min_edge_upto(linha, b, t as int + 1) == min_edge_upto(
                        linha,
                        b,
                        (t as int + 1) - 1 + 1,
                    ));
                }
            }
            let e = gr.adj[i][t];
            if e.value != i {
                if e.weight < cost[i][e.value] {
                    cost[i][e.value] = e.weight;
                    rot[i][e.value] = Some(e.value);
                }
            }
            t += 1;
        }
        i += 1;
    }
    let ghost c0 = cost_view(cost);
    let ghost r0 = rot_view(rot);
    proof {
        assert(c0 =~~= seed_cost(*gr));
        assert(r0 =~~= seed_rot(*gr));
        assert(cost_inv(c0, n)) by {
            assert forall|a: int, b: int| 0 <= a < n && 0 <= b < n implies 0 <= #[trigger] c0[a][b]
                <= INF by {
                if a != b {
                    lemma_min_edge_upto_range(gr.row(a), b, gr.row(a).len() as int, *gr, a);
                }
            }
        }
        assert(rot_inv(c0, r0, n));
    }

    // The triple loop, in place; within pass `k`, row `k`, column `k` and the
    // diagonal never change, which keeps the in-place update equal to the
    // functional pass over the matrices as they stood when the pass began.
    let mut k: usize = 0;
    while k < num_v
        invariant
            k <= num_v,
            cost@.len() == num_v,
            rot@.len() == num_v,
            forall|a: int| 0 <= a < num_v ==> (#[trigger] cost@[a])@.len() == num_v,
            forall|a: int| 0 <= a < num_v ==> (#[trigger] rot@[a])@.len() == num_v,
            cost_view(cost) == fw_iter(c0, r0, k as nat).0,
            rot_view(rot) == fw_iter(c0, r0, k as nat).1,
        decreases num_v - k,
    {
        let ghost oldc = cost_view(cost);
        let ghost oldr = rot_view(rot);
        let ghost newc = fw_cost_pass(oldc, k as int);
        let ghost newr = fw_rot_pass(oldc, oldr, k as int);
        proof {
            lemma_fw_iter_inv(c0, r0, n, k as nat);
            lemma_fw_pass_inv(oldc, oldr, n, k as int);
        }
        let mut i: usize = 0;
        while i < num_v
            invariant
                i <= num_v,
                k < num_v,
                cost@.len() == num_v,
                rot@.len() == num_v,
                forall|a: int| 0 <= a < num_v ==> (#[trigger] cost@[a])@.len() == num_v,
                forall|a: int| 0 <= a < num_v ==> (#[trigger] rot@[a])@.len() == num_v,
                forall|a: int, b: int|
                    0 <= a < i && 0 <= b < num_v ==> #[trigger] cost@[a]@[b] as int == newc[a][b],
                forall|a: int, b: int|
                    0 <= a < i && 0 <= b < num_v ==> #[trigger] rot@[a]@[b] == newr[a][b],
                forall|a: int, b: int|
                    i <= a < num_v && 0 <= b < num_v ==> #[trigger] cost@[a]@[b] as int
                        == oldc[a][b],
                forall|a: int, b: int|
                    i <= a < num_v && 0 <= b < num_v ==> #[trigger] rot@[a]@[b] == oldr[a][b],
            decreases num_v - i,
        {
            let mut j: usize = 0;
            while j < num_v
                invariant
                    j <= num_v,
                    i < num_v,
                    k < num_v,
                    cost@.len() == num_v,
                    rot@.len() == num_v,
                    forall|a: int| 0 <= a < num_v ==> (#[trigger] cost@[a])@.len() == num_v,
                    forall|a: int| 0 <= a < num_v ==> (#[trigger] rot@[a])@.len() == num_v,
                    forall|a: int, b: int|
                        0 <= a < i && 0 <= b < num_v ==> #[trigger] cost@[a]@[b] as int
                            == newc[a][b],
                    forall|a: int, b: int|
                        0 <= a < i && 0 <= b < num_v ==> #[trigger] rot@[a]@[b] == newr[a][b],
                    forall|a: int, b: int|
                        i < a < num_v && 0 <= b < num_v ==> #[trigger] cost@[a]@[b] as int
                            == oldc[a][b],
                    forall|a: int, b: int|
                        i < a < num_v && 0 <= b < num_v ==> #[trigger] rot@[a]@[b] == oldr[a][b],
                    forall|b: int|
                        0 <= b < j ==> #[trigger] cost@[i as int]@[b] as int == newc[i as int][b],
                    forall|b: int|
                        0 <= b < j ==> #[trigger] rot@[i as int]@[b] == newr[i as int][b],
                    forall|b: int|
                        j <= b < num_v ==> #[trigger] cost@[i as int]@[b] as int
                            == oldc[i as int][b],
                    forall|b: int|
                        j <= b < num_v ==> #[trigger] rot@[i as int]@[b] == oldr[i as int][b],
                decreases num_v - j,
            {
                proof {
                    // The entries read now still hold their start-of-pass
                    // values: row k and column k do not change within a pass.
                    if (k as int) < j {
                        assert(cost@[i as int]@[k as int] as int == newc[i as int][k as int]);
                    }
                    if (k as int) < i {
                        assert(cost@[k as int]@[j as int] as int == newc[k as int][j as int]);
                        assert(rot@[i as int]@[k as int] == if (k as int) < j {
                            newr[i as int][k as int]
                        } else {
                            oldr[i as int][k as int]
                        });
                    }
                    assert(cost@[i as int]@[k as int] as int == oldc[i as int][k as int]);
                    assert(cost@[k as int]@[j as int] as int == oldc[k as int][j as int]);
                    assert(rot@[i as int]@[k as int] == oldr[i as int][k as int]);
                    assert(0 <= oldc[i as int][k as int] <= INF);
                    assert(0 <= oldc[k as int][j as int] <= INF);
                }
                let via_k = cost[i][k] + cost[k][j];
                if via_k < cost[i][j] {
                    let hop = rot[i][k];
                    cost[i][j] = via_k;
                    rot[i][j] = hop;
                }
                j += 1;
            }
            i += 1;
        }
        proof {
            assert(cost_view(cost) =~~= newc);
            assert(rot_view(rot) =~~= newr);
        }
        k += 1;
    }

    proof {
        lemma_fw_iter_inv(c0, r0, n, num_v as nat);
        let fc = fw_iter(c0, r0, num_v as nat).0;
        let fr = fw_iter(c0, r0, num_v as nat).1;
        assert(c0 == seed_cost(*gr) && r0 == seed_rot(*gr));
        assert forall|a: int, b: int|
            0 <= a < num_v && 0 <= b < num_v implies 0 <= #[trigger] cost@[a]@[b] <= INF by {
            assert(cost@[a]@[b] as int == fc[a][b]);
        }
        assert forall|a: int, b: int|
            0 <= a < num_v && 0 <= b < num_v implies ((#[trigger] rot@[a]@[b]) matches Some(u)
                ==> u < num_v) by {
            assert(rot@[a]@[b] == fr[a][b]);
        }
        assert forall|a: int, b: int|
            0 <= a < num_v && 0 <= b < num_v implies ((#[trigger] rot@[a]@[b]) is Some <==> cost@[
        a]@[b] < INF) by {
            assert(rot@[a]@[b] == fr[a][b]);
            assert(cost@[a]@[b] as int == fc[a][b]);
        }
        assert forall|a: int| 0 <= a < num_v implies #[trigger] cost@[a]@[a] == 0 by {
            assert(cost@[a]@[a] as int == fc[a][a]);
        }
        assert forall|a: int| 0 <= a < num_v implies #[trigger] rot@[a]@[a] == Some(a as usize) by {
            assert(rot@[a]@[a] == fr[a][a]);
        }
    }
    (cost, rot)
}

/// Every seeded off-diagonal entry lies in `[0, INF]` when the graph's
/// weights do.
proof fn lemma_min_edge_upto_range(row: Seq<Node>, j: int, t: int, g: Graph, a: int)
    requires
        g.nonneg_weights(),
        0 <= a < g.adj@.len(),
        row == g.row(a),
        t <= row.len(),
    ensures
        0 <= min_edge_upto(row, j, t) <= INF,
    decreases t,
{
    if t > 0 {
        lemma_min_edge_upto_range(row, j, t - 1, g, a);
    }
}


/// The path that repeated next-hop lookup in a routing matrix produces:
/// `[head, ..., destino]` when the jumps reach `destino` within `fuel` steps,
/// and the empty sequence when a lookup is `None` (no path) or the fuel runs
/// out (a cyclic routing structure).
pub open spec fn spec_rota(
    rot: Seq<Seq<Option<usize>>>,
    head: usize,
    destino: usize,
    fuel: nat,
) -> Seq<usize>
    decreases fuel,
{
    if head == destino {
        seq![head]
    } else if fuel == 0 {
        Seq::empty()
    } else {
        match rot[head as int][destino as int] {
            None => Seq::empty(),
            Some(next) => {
                let s = spec_rota(rot, next, destino, (fuel - 1) as nat);
                if s.len() == 0 {
                    Seq::empty()
                } else {
                    seq![head] + s
                }
            },
        }
    }
}

/// A non-empty reconstructed route starts at the source and ends at the
/// destination.
pub proof fn lemma_spec_rota_ends(
    rot: Seq<Seq<Option<usize>>>,
    head: usize,
    destino: usize,
    fuel: nat,
)
    requires
        spec_rota(rot, head, destino, fuel).len() > 0,
    ensures
        spec_rota(rot, head, destino, fuel)[0] == head,
        spec_rota(rot, head, destino, fuel).last() == destino,
    decreases fuel,
{
    if head != destino {
        match rot[head as int][destino as int] {
            None => {},
            Some(next) => {
                lemma_spec_rota_ends(rot, next, destino, (fuel - 1) as nat);
            },
        }
    }
}

/// Path reconstruction to an unreachable vertex yields the empty sequence:
/// the routing matrix has `None` exactly where the cost matrix holds the
/// `INF` sentinel, so a pair still at `INF` has no next hop and the walk
/// stops at once with no path.
pub proof fn lemma_inalcancavel_sem_rota(
    cost: Seq<Seq<int>>,
    rot: Seq<Seq<Option<usize>>>,
    n: int,
    origem: usize,
    destino: usize,
    fuel: nat,
)
    requires
        rot_inv(cost, rot, n),
        origem < n,
        destino < n,
        origem != destino,
        cost[origem as int][destino as int] >= INF,
    ensures
        spec_rota(rot, origem, destino, fuel) == Seq::<usize>::empty(),
{
    assert(rot[origem as int][destino as int] is None);
}

/// Walks the routing matrix from `origem` by repeated next-hop lookup toward
/// `destino` and returns the vertex sequence, or the empty vector when a
/// lookup is `None` before the destination is reached. The walk takes at most
/// one jump per vertex, so a cyclic routing structure also yields the empty
/// vector.
#[verifier::loop_isolation(false)]
pub fn reconstruir_caminho(
    rot: &Vec<Vec<Option<usize>>>,
    origem: usize,
    destino: usize,
) -> (r: Vec<usize>)
    requires
        origem < rot@.len(),
        destino < rot@.len(),
        forall|i: int| 0 <= i < rot@.len() ==> (#[trigger] rot@[i])@.len() == rot@.len(),
        forall|i: int, j: int|
            0 <= i < rot@.len() && 0 <= j < rot@.len() ==> ((#[trigger] rot@[i]@[j]) matches Some(u)
                ==> u < rot@.len()),
    ensures
        r@ == spec_rota(rot_view(*rot), origem, destino, rot@.len() as nat),
        origem == destino ==> r@ == seq![origem],
        r@.len() > 0 ==> r@[0] == origem && r@.last() == destino,
{
    let ghost visao = rot_view(*rot);
    let ghost full = spec_rota(visao, origem, destino, rot@.len() as nat);
    let mut caminho: Vec<usize> = Vec::new();
    caminho.push(origem);
    let mut head = origem;
    let mut fuel: usize = rot.len();
    loop
        invariant
            head < rot@.len(),
            fuel <= rot@.len(),
            caminho@.len() > 0,
            caminho@.last() == head,
            full == (if spec_rota(visao, head, destino, fuel as nat).len() == 0 {
                Seq::<usize>::empty()
            } else {
                caminho@.drop_last() + spec_rota(visao, head, destino, fuel as nat)
            }),
        decreases fuel,
    {
        if head == destino {
            proof {
                assert(spec_rota(visao, head, destino, fuel as nat) == seq![head]);
                assert(caminho@.drop_last() + seq![head] =~= caminho@);
                if full.len() > 0 {
                    lemma_spec_rota_ends(visao, origem, destino, rot@.len() as nat);
                }
            }
            return caminho;
        }
        if fuel == 0 {
            return Vec::new();
        }
        match rot[head][destino] {
            None => {
                return Vec::new();
            },
            Some(next) => {
                proof {
                    assert(rot@[head as int]@[destino as int] matches Some(u) && u < rot@.len());
                    let s = spec_rota(visao, next, destino, (fuel - 1) as nat);
                    if s.len() > 0 {
                        assert(spec_rota(visao, head, destino, fuel as nat) == seq![head] + s);
                        assert(caminho@.drop_last() + (seq![head] + s) =~= (caminho@.drop_last()
                            + seq![head]) + s);
                        assert(caminho@.drop_last() + seq![head] =~= caminho@);
                        assert(caminho@.push(next).drop_last() =~= caminho@);
                    }
                }
                caminho.push(next);
                head = next;
                fuel = fuel - 1;
            },
        }
    }
}

} // verus!
