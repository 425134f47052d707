//! Dijkstra's single-source shortest-path engine.
//!
//! The open set is kept as a plain vector and the nearest open vertex is found
//! by a linear scan (deliberate simplicity over a priority queue). Weights
//! must be non-negative and at most the `INF` sentinel; unreachable vertices
//! keep the sentinel distance and a `None` predecessor.

use crate::graph::Graph;
use crate::graph::INF;
use crate::graph::Node;
use crate::graph::spec_vizinhos;
use crate::graph::spec_weight;
use vstd::prelude::*;

verus! {

/// Index into `a` of the first entry whose distance is minimal among `a[..k]`
/// (meaningful for `1 <= k <= a.len()`).
pub open spec fn nearest_upto(d: Seq<i32>, a: Seq<usize>, k: int) -> int
    decreases k,
{
    if k <= 1 {
        0
    } else {
        let m = nearest_upto(d, a, k - 1);
        if d[a[k - 1] as int] < d[a[m] as int] {
            k - 1
        } else {
            m
        }
    }
}

/// `nearest_upto` names the first minimum of the prefix.
pub proof fn lemma_nearest_upto(d: Seq<i32>, a: Seq<usize>, k: int)
    requires
        1 <= k <= a.len(),
        forall|j: int| 0 <= j < a.len() ==> (#[trigger] a[j]) < d.len(),
    ensures
        0 <= nearest_upto(d, a, k) < k,
        forall|j: int|
            0 <= j < k ==> #[trigger] d[a[j] as int] >= d[a[nearest_upto(d, a, k)] as int],
        forall|j: int|
            0 <= j < nearest_upto(d, a, k) ==> #[trigger] d[a[j] as int] > d[a[nearest_upto(
                d,
                a,
                k,
            )] as int],
    decreases k,
{
    if k > 1 {
        lemma_nearest_upto(d, a, k - 1);
    }
}

/// What `vertice_mais_proximo` returns: the first open vertex at minimal
/// distance, unless the list is empty or even the minimum is `i32::MAX`.
pub open spec fn spec_vertice_mais_proximo(d: Seq<i32>, a: Seq<usize>) -> Option<usize> {
    if a.len() > 0 && d[a[nearest_upto(d, a, a.len() as int)] as int] < i32::MAX {
        Some(a[nearest_upto(d, a, a.len() as int)])
    } else {
        None
    }
}

/// Returns the vertex of `A` with the smallest current distance; ties resolve
/// to the earliest entry, and a vertex at distance `i32::MAX` is never chosen.
#[allow(non_snake_case)]
pub fn vertice_mais_proximo(distancias: &Vec<i32>, A: &Vec<usize>) -> (r: Option<usize>)
    requires
        forall|j: int| 0 <= j < A@.len() ==> (#[trigger] A@[j]) < distancias@.len(),
    ensures
        r == spec_vertice_mais_proximo(distancias@, A@),
        r matches Some(v) ==> A@.contains(v) && (forall|j: int|
            0 <= j < A@.len() ==> #[trigger] distancias@[A@[j] as int] >= distancias@[v as int])
            && distancias@[v as int] < i32::MAX,
        r is None ==> forall|j: int|
            0 <= j < A@.len() ==> #[trigger] distancias@[A@[j] as int] == i32::MAX,
{
    let mut distancia_minima = i32::MAX;
    let mut escolhido: Option<usize> = None;
    let mut t: usize = 0;
    while t < A.len()
        invariant
            t <= A@.len(),
            forall|j: int| 0 <= j < A@.len() ==> (#[trigger] A@[j]) < distancias@.len(),
            t >= 1 ==> ({
                let m = nearest_upto(distancias@, A@, t as int);
                &&& 0 <= m < t
                &&& (distancias@[A@[m] as int] < i32::MAX ==> escolhido == Some(A@[m])
                    && distancia_minima == distancias@[A@[m] as int])
                &&& (distancias@[A@[m] as int] == i32::MAX ==> escolhido is None
                    && distancia_minima == i32::MAX)
            }),
            t == 0 ==> escolhido is None && distancia_minima == i32::MAX,
        decreases A@.len() - t,
    {
        proof {
            if t >= 1 {
                lemma_nearest_upto(distancias@, A@, t as int);
            }
        }
        let v = A[t];
        if distancias[v] < distancia_minima {
            distancia_minima = distancias[v];
            escolhido = Some(v);
        }
        t += 1;
    }
    proof {
        if A@.len() >= 1 {
            lemma_nearest_upto(distancias@, A@, A@.len() as int);
        }
    }
    escolhido
}

/// One step of a filtering scan: extending the scanned prefix by one element
/// extends the filtered result exactly when the element passes.
proof fn lemma_filter_step<T>(s: Seq<T>, pred: spec_fn(T) -> bool, k: int)
    requires
        0 <= k < s.len(),
    ensures
        s.take(k + 1).filter(pred) == if pred(s[k]) {
            s.take(k).filter(pred).push(s[k])
        } else {
            s.take(k).filter(pred)
        },
{
    reveal(Seq::filter);
    assert(s.take(k + 1).drop_last() =~= s.take(k));
    assert(s.take(k + 1).last() == s[k]);
}

/// Linear membership scan.
#[allow(non_snake_case)]
fn contem(A: &Vec<usize>, x: usize) -> (r: bool)
    ensures
        r == A@.contains(x),
{
    let mut j: usize = 0;
    while j < A.len()
        invariant
            j <= A@.len(),
            forall|i: int| 0 <= i < j ==> A@[i] != x,
        decreases A@.len() - j,
    {
        if A[j] == x {
            return true;
        }
        j += 1;
    }
    false
}

/// Membership in the sequence `a`, as a predicate.
pub open spec fn membro(a: Seq<usize>) -> spec_fn(usize) -> bool {
    |x: usize| a.contains(x)
}

/// Returns the neighbours of `vertice` that are still in `A`, in adjacency
/// order, duplicates kept.
#[allow(non_snake_case)]
pub fn intersecao(A: &Vec<usize>, grafo: &Graph, vertice: &usize) -> (r: Vec<usize>)
    ensures
        r@ == spec_vizinhos(*grafo, *vertice).filter(membro(A@)),
{
    let viz = grafo.vizinhos(vertice);
    let ghost pred = membro(A@);
    let mut r: Vec<usize> = Vec::new();
    proof {
        assert(viz@.take(0).filter(pred) =~= Seq::<usize>::empty()) by {
            reveal(Seq::filter);
        }
    }
    let mut k: usize = 0;
    while k < viz.len()
        invariant
            k <= viz@.len(),
            r@ == viz@.take(k as int).filter(pred),
            pred == membro(A@),
        decreases viz@.len() - k,
    {
        proof {
            lemma_filter_step(viz@, pred, k as int);
        }
        if contem(A, viz[k]) {
            r.push(viz[k]);
        }
        k += 1;
    }
    proof {
        assert(viz@.take(viz@.len() as int) =~= viz@);
    }
    r
}

/// The path that walking a predecessor vector backward from `v` produces:
/// `[origem, ..., v]` when the walk reaches `origem` within `fuel` steps, and
/// the empty sequence when it first meets a missing predecessor (no path) or
/// runs out of fuel (a cyclic predecessor structure).
pub open spec fn spec_caminho(
    anterior: Seq<Option<usize>>,
    origem: usize,
    v: usize,
    fuel: nat,
) -> Seq<usize>
    decreases fuel,
{
    if v == origem {
        seq![v]
    } else if fuel == 0 {
        Seq::empty()
    } else {
        match anterior[v as int] {
            None => Seq::empty(),
            Some(u) => {
                let s = spec_caminho(anterior, origem, u, (fuel - 1) as nat);
                if s.len() == 0 {
                    Seq::empty()
                } else {
                    s.push(v)
                }
            },
        }
    }
}

/// A non-empty reconstructed path starts at the source and ends at the
/// destination.
pub proof fn lemma_spec_caminho_ends(
    anterior: Seq<Option<usize>>,
    origem: usize,
    v: usize,
    fuel: nat,
)
    requires
        spec_caminho(anterior, origem, v, fuel).len() > 0,
    ensures
        spec_caminho(anterior, origem, v, fuel)[0] == origem,
        spec_caminho(anterior, origem, v, fuel).last() == v,
    decreases fuel,
{
    if v != origem {
        match anterior[v as int] {
            None => {},
            Some(u) => {
                lemma_spec_caminho_ends(anterior, origem, u, (fuel - 1) as nat);
            },
        }
    }
}

/// Path reconstruction to an unreachable vertex yields the empty sequence:
/// when a distance vector and predecessor vector agree in the way the engines
/// guarantee (a finite distance exactly where a predecessor exists), a vertex
/// still holding the `INF` sentinel has no predecessor, so the walk stops at
/// once with no path.
pub proof fn lemma_inalcancavel_sem_caminho(
    d: Seq<i32>,
    anterior: Seq<Option<usize>>,
    origem: usize,
    destino: usize,
    fuel: nat,
)
    requires
        destino < anterior.len(),
        destino < d.len(),
        destino != origem,
        d[destino as int] >= INF,
        d[destino as int] < INF <==> anterior[destino as int] is Some,
    ensures
        spec_caminho(anterior, origem, destino, fuel) == Seq::<usize>::empty(),
{
    assert(anterior[destino as int] is None);
}

/// Walks `anterior` backward from `destino` and returns the vertex sequence
/// from `origem` to `destino`, or the empty vector when the walk meets a
/// missing predecessor before the source. The walk takes at most one step per
/// vertex, so a cyclic predecessor structure also yields the empty vector.
pub fn reconstruir_caminho(origem: usize, destino: usize, anterior: &Vec<Option<usize>>) -> (r: Vec<
    usize,
>)
    requires
        destino < anterior@.len(),
        forall|v: int|
            0 <= v < anterior@.len() ==> ((#[trigger] anterior@[v]) matches Some(u) ==> u
                < anterior@.len()),
    ensures
        r@ == spec_caminho(anterior@, origem, destino, anterior@.len() as nat),
        origem == destino ==> r@ == seq![origem],
        r@.len() > 0 ==> r@[0] == origem && r@.last() == destino,
{
    let ghost full = spec_caminho(anterior@, origem, destino, anterior@.len() as nat);
    let mut caminho: Vec<usize> = Vec::new();
    let mut v = destino;
    let mut fuel: usize = anterior.len();
    loop
        invariant
            v < anterior@.len(),
            fuel <= anterior@.len(),
            destino < anterior@.len(),
            forall|w: int|
                0 <= w < anterior@.len() ==> ((#[trigger] anterior@[w]) matches Some(u) ==> u
                    < anterior@.len()),
            full == spec_caminho(anterior@, origem, destino, anterior@.len() as nat),
            full == (if spec_caminho(anterior@, origem, v, fuel as nat).len() == 0 {
                Seq::<usize>::empty()
            } else {
                spec_caminho(anterior@, origem, v, fuel as nat) + caminho@.reverse()
            }),
        decreases fuel,
    {
        let ghost antes = caminho@;
        caminho.push(v);
        proof {
            assert(caminho@.reverse() =~= seq![v] + antes.reverse());
        }
        if v == origem {
            proof {
                assert(spec_caminho(anterior@, origem, v, fuel as nat) == seq![v]);
                assert(seq![v] + antes.reverse() =~= caminho@.reverse());
            }
            let r = inverter(&caminho);
            proof {
                assert(r@ == full);
                if full.len() > 0 {
                    lemma_spec_caminho_ends(
                        anterior@,
                        origem,
                        destino,
                        anterior@.len() as nat,
                    );
                }
            }
            return r;
        }
        if fuel == 0 {
            return Vec::new();
        }
        match anterior[v] {
            None => {
                return Vec::new();
            },
            Some(u) => {
                proof {
                    let s = spec_caminho(anterior@, origem, u, (fuel - 1) as nat);
                    if s.len() > 0 {
                        assert(spec_caminho(anterior@, origem, v, fuel as nat) == s.push(v));
                        assert(s.push(v) + antes.reverse() =~= s + caminho@.reverse());
                    }
                }
                v = u;
                fuel = fuel - 1;
            },
        }
    }
}

/// A first-match weight is the weight of some matching entry of the row.
proof fn lemma_first_weight_witness(row: Seq<Node>, destino: usize, k: int)
    ensures
        crate::graph::first_weight_from(row, destino, k) matches Some(w) ==> exists|t: int|
            k <= t < row.len() && (#[trigger] row[t]).value == destino && row[t].weight == w,
    decreases row.len() - k,
{
    if 0 <= k < row.len() && row[k].value != destino {
        lemma_first_weight_witness(row, destino, k + 1);
    }
}

/// First position of `x` in `a` at or after `k`, or `a.len()` when absent.
pub open spec fn indice_de(a: Seq<usize>, x: usize, k: int) -> int
    decreases a.len() - k,
{
    if k < 0 || k >= a.len() {
        a.len() as int
    } else if a[k] == x {
        k
    } else {
        indice_de(a, x, k + 1)
    }
}

/// Relaxes the edges from `r` toward the candidates `s[m..]`, in order: a
/// candidate's distance drops to `d[r]` plus the first edge weight toward it
/// whenever that is an improvement, and its predecessor becomes `r`.
pub open spec fn dij_relax_from(
    g: Graph,
    d: Seq<i32>,
    prev: Seq<Option<usize>>,
    r: usize,
    s: Seq<usize>,
    m: int,
) -> (Seq<i32>, Seq<Option<usize>>)
    decreases s.len() - m,
{
    if m < 0 || m >= s.len() {
        (d, prev)
    } else {
        let i = s[m];
        match spec_weight(g, r, i) {
            Some(w) => {
                let soma = d[r as int] + w;
                if soma < d[i as int] {
                    dij_relax_from(
                        g,
                        d.update(i as int, soma as i32),
                        prev.update(i as int, Some(r)),
                        r,
                        s,
                        m + 1,
                    )
                } else {
                    dij_relax_from(g, d, prev, r, s, m + 1)
                }
            },
            None => dij_relax_from(g, d, prev, r, s, m + 1),
        }
    }
}

/// The greedy main loop: closes the nearest open vertex, relaxes its open
/// neighbours, and repeats until the open set is exhausted.
pub open spec fn dij_loop(g: Graph, d: Seq<i32>, prev: Seq<Option<usize>>, a: Seq<usize>) -> (
    Seq<i32>,
    Seq<Option<usize>>,
)
    decreases a.len(),
    via dij_loop_decreases
{
    if a.len() == 0 {
        (d, prev)
    } else {
        match spec_vertice_mais_proximo(d, a) {
            None => (d, prev),
            Some(r) => {
                let idx = indice_de(a, r, 0);
                if idx >= a.len() {
                    (d, prev)
                } else {
                    let a2 = a.remove(idx);
                    let s = spec_vizinhos(g, r).filter(membro(a2));
                    let st = dij_relax_from(g, d, prev, r, s, 0);
                    dij_loop(g, st.0, st.1, a2)
                }
            },
        }
    }
}

/// Initial distances: 0 at the source, `INF` elsewhere.
pub open spec fn dij_d0(n: nat, origem: usize) -> Seq<i32> {
    Seq::new(
        n,
        |i: int|
            if i == origem {
                0i32
            } else {
                INF
            },
    )
}

/// Initial predecessors: none.
pub open spec fn dij_p0(n: nat) -> Seq<Option<usize>> {
    Seq::new(n, |i: int| None::<usize>)
}

/// Initial open set: every vertex, in order.
pub open spec fn dij_a0(n: nat) -> Seq<usize> {
    Seq::new(n, |i: int| i as usize)
}

/// `indice_de` stays within `[0, a.len()]`.
pub proof fn lemma_indice_de_range(a: Seq<usize>, x: usize, k: int)
    requires
        0 <= k,
    ensures
        0 <= indice_de(a, x, k) <= a.len(),
    decreases a.len() - k,
{
    if k < a.len() && a[k] != x {
        lemma_indice_de_range(a, x, k + 1);
    }
}

#[via_fn]
proof fn dij_loop_decreases(g: Graph, d: Seq<i32>, prev: Seq<Option<usize>>, a: Seq<usize>) {
    if a.len() != 0 {
        if let Some(r) = spec_vertice_mais_proximo(d, a) {
            let idx = indice_de(a, r, 0);
            lemma_indice_de_range(a, r, 0);
            if idx < a.len() {
                a.remove_ensures(idx);
                assert(a.remove(idx).len() < a.len());
            }
        }
    }
}

/// What `dijikstra` computes, as a function of the graph and source alone.
pub open spec fn spec_dijkstra(g: Graph, origem: usize) -> (Seq<i32>, Seq<Option<usize>>) {
    let n = g.num_vertex as nat;
    dij_loop(g, dij_d0(n, origem), dij_p0(n), dij_a0(n))
}

/// Single-source shortest paths by greedy selection over an open set, scanned
/// linearly. Unreachable vertices keep the `INF` sentinel and a `None`
/// predecessor; the source keeps distance 0 and a `None` predecessor; every
/// other finite entry is consistent with its predecessor edge.
#[verifier::loop_isolation(false)]
pub fn dijikstra(grafo: &Graph, origem: &usize) -> (r: (Vec<i32>, Vec<Option<usize>>))
    requires
        grafo.wf(),
        *origem < grafo.num_vertex,
        grafo.nonneg_weights(),
    ensures
        r.0@ == spec_dijkstra(*grafo, *origem).0,
        r.1@ == spec_dijkstra(*grafo, *origem).1,
        r.0@.len() == grafo.num_vertex,
        r.1@.len() == grafo.num_vertex,
        r.0@[*origem as int] == 0,
        r.1@[*origem as int] is None,
        forall|v: int| 0 <= v < grafo.num_vertex ==> 0 <= #[trigger] r.0@[v] <= INF,
        forall|v: int|
            0 <= v < grafo.num_vertex ==> ((#[trigger] r.1@[v]) matches Some(u) ==> (u
                < grafo.num_vertex && v != *origem && r.0@[v] < INF && (spec_weight(
                *grafo,
                u,
                v as usize,
            ) matches Some(w)
                && r.0@[v] == r.0@[u as int] + w))),
        forall|v: int|
            0 <= v < grafo.num_vertex && v != *origem ==> ((#[trigger] r.0@[v]) < INF <==> r.1@[v]
                is Some),
{
    let num_v = grafo.num_vertex();

    let mut d: Vec<i32> = Vec::new();
    let mut i: usize = 0;
    while i < num_v
        invariant
            i <= num_v,
            d@.len() == i,
            forall|v: int| 0 <= v < i ==> #[trigger] d@[v] == INF,
        decreases num_v - i,
    {
        d.push(INF);
        i += 1;
    }
    d[*origem] = 0;

    #[allow(non_snake_case)]
    let mut A = grafo.vertices_list();
    // the closed set: the algorithm only ever adds to it
    #[allow(non_snake_case)]
    let mut F: Vec<usize> = Vec::new();
    let mut anterior: Vec<Option<usize>> = Vec::new();
    let mut i: usize = 0;
    while i < num_v
        invariant
            i <= num_v,
            anterior@.len() == i,
            forall|v: int| 0 <= v < i ==> (#[trigger] anterior@[v]) is None,
        decreases num_v - i,
    {
        anterior.push(None);
        i += 1;
    }
    proof {
        assert(A@.no_duplicates());
        let n = grafo.num_vertex as nat;
        assert(d@ =~= dij_d0(n, *origem));
        assert(anterior@ =~= dij_p0(n));
        assert(A@ =~= dij_a0(n));
    }

    while A.len() != 0
        invariant
            spec_dijkstra(*grafo, *origem) == dij_loop(*grafo, d@, anterior@, A@),
            grafo.wf(),
            grafo.nonneg_weights(),
            *origem < num_v,
            num_v == grafo.num_vertex,
            d@.len() == num_v,
            anterior@.len() == num_v,
            A@.no_duplicates(),
            forall|j: int| 0 <= j < A@.len() ==> (#[trigger] A@[j]) < num_v,
            d@[*origem as int] == 0,
            anterior@[*origem as int] is None,
            forall|v: int| 0 <= v < num_v ==> 0 <= #[trigger] d@[v] <= INF,
            forall|v: int|
                0 <= v < num_v ==> ((#[trigger] anterior@[v]) matches Some(u) ==> (u < num_v && v
                    != *origem && !A@.contains(u) && d@[v] < INF && (spec_weight(
                    *grafo,
                    u,
                    v as usize,
                ) matches Some(w)
                    && d@[v] == d@[u as int] + w))),
            forall|v: int|
                0 <= v < num_v && v != *origem ==> ((#[trigger] d@[v]) < INF <==> anterior@[v]
                    is Some),
        decreases A@.len(),
    {
        let r = match vertice_mais_proximo(&d, &A) {
            Some(v) => v,
            None => {
                // Every open distance is at most INF < i32::MAX, so a nearest
                // vertex always exists while the open set is non-empty.
                proof {
                    assert(d@[A@[0] as int] == i32::MAX);
                    assert(false);
                }
                vstd::pervasive::unreached()
            },
        };
        F.push(r);

        let mut idx: usize = 0;
        while A[idx] != r
            invariant
                A@.len() <= usize::MAX,
                0 <= idx < A@.len(),
                forall|j: int| 0 <= j < idx ==> A@[j] != r,
                exists|j: int| idx <= j < A@.len() && A@[j] == r,
                indice_de(A@, r, 0) == indice_de(A@, r, idx as int),
            decreases A@.len() - idx,
        {
            idx += 1;
        }
        proof {
            assert(indice_de(A@, r, 0) == idx);
        }
        let ghost d_entrada = d@;
        let ghost p_entrada = anterior@;
        let ghost a_antiga = A@;
        A.remove(idx);
        proof {
            a_antiga.remove_ensures(idx as int);
            assert forall|x: usize| A@.contains(x) implies a_antiga.contains(x) && x != r by {
                let j = choose|j: int| 0 <= j < A@.len() && A@[j] == x;
                if j < idx {
                    assert(a_antiga[j] == x);
                } else {
                    assert(a_antiga[j + 1] == x);
                    assert(a_antiga[idx as int] == r);
                }
            }
            assert forall|x: usize| a_antiga.contains(x) && x != r implies A@.contains(x) by {
                let j = choose|j: int| 0 <= j < a_antiga.len() && a_antiga[j] == x;
                if j < idx {
                    assert(A@[j] == x);
                } else {
                    assert(A@[j - 1] == x);
                }
            }
            assert forall|p: int, q: int|
                0 <= p < A@.len() && 0 <= q < A@.len() && p != q implies A@[p] != A@[q] by {
                let pp = if p < idx {
                    p
                } else {
                    p + 1
                };
                let qq = if q < idx {
                    q
                } else {
                    q + 1
                };
                assert(A@[p] == a_antiga[pp] && A@[q] == a_antiga[qq]);
            }
        }

        #[allow(non_snake_case)]
        let S = intersecao(&A, &grafo, &r);
        let ghost viz = spec_vizinhos(*grafo, r);
        proof {
            assert(dij_loop(*grafo, d_entrada, p_entrada, a_antiga) == ({
                let st = dij_relax_from(*grafo, d_entrada, p_entrada, r, S@, 0);
                dij_loop(*grafo, st.0, st.1, A@)
            }));
        }
        let ghost alvo = dij_relax_from(*grafo, d_entrada, p_entrada, r, S@, 0);
        let mut m: usize = 0;
        while m < S.len()
            invariant
                grafo.wf(),
                grafo.nonneg_weights(),
                *origem < num_v,
                num_v == grafo.num_vertex,
                d@.len() == num_v,
                anterior@.len() == num_v,
                A@.no_duplicates(),
                forall|j: int| 0 <= j < A@.len() ==> (#[trigger] A@[j]) < num_v,
                d@[*origem as int] == 0,
                anterior@[*origem as int] is None,
                forall|v: int| 0 <= v < num_v ==> 0 <= #[trigger] d@[v] <= INF,
                forall|v: int|
                    0 <= v < num_v ==> ((#[trigger] anterior@[v]) matches Some(u) ==> (u < num_v
                        && v != *origem && !A@.contains(u) && d@[v] < INF && (spec_weight(
                        *grafo,
                        u,
                        v as usize,
                    ) matches Some(w)
                        && d@[v] == d@[u as int] + w))),
                forall|v: int|
                    0 <= v < num_v && v != *origem ==> ((#[trigger] d@[v]) < INF <==> anterior@[v]
                        is Some),
                m <= S@.len(),
                S@ == viz.filter(membro(A@)),
                r < num_v,
                !A@.contains(r),
                alvo == dij_relax_from(*grafo, d@, anterior@, r, S@, m as int),
            decreases S@.len() - m,
        {
            let i = S[m];
            proof {
                assert(membro(A@)(S@[m as int]));
                assert(A@.contains(i));
            }
            let ghost d_antes = d@;
            let ghost p_antes = anterior@;
            if let Some(peso_ri) = grafo.weight(&r, &i) {
                proof {
                    lemma_first_weight_witness(grafo.row(r as int), i, 0);
                    let t = choose|t: int|
                        0 <= t < grafo.row(r as int).len() && (#[trigger] grafo.row(r as int)[
                        t]).value == i && grafo.row(r as int)[t].weight == peso_ri;
                    assert(0 <= grafo.row(r as int)[t].weight <= INF);
                }
                let soma_nova = d[r] + peso_ri;
                let di = d[i];
                let p = if di < soma_nova {
                    di
                } else {
                    soma_nova
                };
                if p < di {
                    d[i] = p;
                    anterior[i] = Some(r);
                    proof {
                        assert(i != r);
                        assert(i != *origem);
                        assert(d@ =~= d_antes.update(i as int, p));
                        assert(anterior@ =~= p_antes.update(i as int, Some(r)));
                        assert(dij_relax_from(*grafo, d_antes, p_antes, r, S@, m as int)
                            == dij_relax_from(*grafo, d@, anterior@, r, S@, m as int + 1));
                    }
                } else {
                    proof {
                        assert(dij_relax_from(*grafo, d_antes, p_antes, r, S@, m as int)
                            == dij_relax_from(*grafo, d@, anterior@, r, S@, m as int + 1));
                    }
                }
            } else {
                proof {
                    assert(dij_relax_from(*grafo, d_antes, p_antes, r, S@, m as int)
                        == dij_relax_from(*grafo, d@, anterior@, r, S@, m as int + 1));
                }
            }
            m += 1;
        }
        proof {
            assert(dij_relax_from(*grafo, d@, anterior@, r, S@, S@.len() as int) == (
                d@,
                anterior@,
            ));
            assert(alvo == (d@, anterior@));
            assert(dij_loop(*grafo, d_entrada, p_entrada, a_antiga) == dij_loop(
                *grafo,
                d@,
                anterior@,
                A@,
            ));
        }
    }
    proof {
        assert(dij_loop(*grafo, d@, anterior@, A@) == (d@, anterior@));
    }
    (d, anterior)
}

/// Returns the reversed vector.
fn inverter(v: &Vec<usize>) -> (r: Vec<usize>)
    ensures
        r@ == v@.reverse(),
{
    let mut r: Vec<usize> = Vec::new();
    let n = v.len();
    let mut i: usize = 0;
    while i < n
        invariant
            i <= n,
            n == v@.len(),
            r@.len() == i,
            forall|j: int| 0 <= j < i ==> #[trigger] r@[j] == v@[n - 1 - j],
        decreases n - i,
    {
        r.push(v[n - 1 - i]);
        i += 1;
    }
    assert(r@ =~= v@.reverse());
    r
}

} // verus!
