use caminhos::bellman_ford::NegativeCycleError;
use caminhos::bellman_ford::bellman_ford;
use caminhos::dijkstra::dijikstra;
use caminhos::dijkstra::reconstruir_caminho;
use caminhos::floydwarshall::floyd_rot_n_cost;
use caminhos::floydwarshall::reconstruir_caminho as reconstruir_rota;
use caminhos::graph::Graph;
use caminhos::graph::INF;

fn grafo_exemplo() -> Graph {
    let mut gr = Graph::new(3, 4);
    gr.edge(0, 1, 4);
    gr.edge(0, 2, 5);
    gr.edge(1, 0, 3);
    gr.edge(2, 1, 3);
    gr
}

#[test]
fn dijkstra_distancias_exemplo() {
    let gr = grafo_exemplo();
    let (distancias, anteriores) = dijikstra(&gr, &0);
    assert_eq!(distancias, vec![0, 4, 5]);
    let caminho = reconstruir_caminho(0, 2, &anteriores);
    assert_eq!(caminho, vec![0, 2]);
    let caminho1 = reconstruir_caminho(0, 1, &anteriores);
    assert_eq!(caminho1, vec![0, 1]);
}

#[test]
fn dijkstra_igual_bellman_ford_pesos_positivos() {
    let gr = grafo_exemplo();
    for origem in 0..3usize {
        let (d_dij, _) = dijikstra(&gr, &origem);
        let (d_bf, _) = bellman_ford(&gr, &origem).expect("no negative cycle");
        assert_eq!(d_dij, d_bf);
    }
}

#[test]
fn floyd_igual_bellman_ford_por_linha() {
    let gr = grafo_exemplo();
    let (cost, _rot) = floyd_rot_n_cost(&gr);
    for origem in 0..3usize {
        let (d_bf, _) = bellman_ford(&gr, &origem).expect("no negative cycle");
        assert_eq!(cost[origem], d_bf);
    }
}

#[test]
fn floyd_custos_exemplo() {
    let gr = grafo_exemplo();
    let (cost, rot) = floyd_rot_n_cost(&gr);
    assert_eq!(cost[0][1], 4);
    assert_eq!(cost[0][2], 5);
    // the only route from 1 to 2 goes 1 -> 0 -> 2, costing 3 + 5
    assert_eq!(cost[1][2], 8);
    assert_eq!(cost[1][0], 3);
    assert_eq!(cost[2][1], 3);
    assert_eq!(cost[2][0], 6);
    let rota = reconstruir_rota(&rot, 1, 2);
    assert_eq!(rota, vec![1, 0, 2]);
}

#[test]
fn floyd_diagonal_sempre_zero_e_identidade() {
    let gr = grafo_exemplo();
    let (cost, rot) = floyd_rot_n_cost(&gr);
    for i in 0..3usize {
        assert_eq!(cost[i][i], 0);
        assert_eq!(rot[i][i], Some(i));
    }
    // also on a graph with unreachable pairs and a self-loop
    let mut gr2 = Graph::new(4, 2);
    gr2.edge(0, 1, 7);
    gr2.edge(2, 2, 5);
    let (cost2, rot2) = floyd_rot_n_cost(&gr2);
    for i in 0..4usize {
        assert_eq!(cost2[i][i], 0);
        assert_eq!(rot2[i][i], Some(i));
    }
}

#[test]
fn caminho_origem_para_si_mesma() {
    let gr = grafo_exemplo();
    let (_d, anteriores) = dijikstra(&gr, &1);
    assert_eq!(reconstruir_caminho(1, 1, &anteriores), vec![1]);
    let (_cost, rot) = floyd_rot_n_cost(&gr);
    assert_eq!(reconstruir_rota(&rot, 2, 2), vec![2]);
}

#[test]
fn vertice_inalcancavel_caminho_vazio_e_custo_infinito() {
    let mut gr = Graph::new(3, 1);
    gr.edge(0, 1, 2);
    let (distancias, anteriores) = dijikstra(&gr, &0);
    assert_eq!(distancias[2], INF);
    assert_eq!(anteriores[2], None);
    let caminho = reconstruir_caminho(0, 2, &anteriores);
    assert!(caminho.is_empty());

    let (cost, rot) = floyd_rot_n_cost(&gr);
    assert_eq!(cost[0][2], INF);
    assert_eq!(rot[0][2], None);
    let rota = reconstruir_rota(&rot, 0, 2);
    assert!(rota.is_empty());

    let (d_bf, ant_bf) = bellman_ford(&gr, &0).expect("no negative cycle");
    assert_eq!(d_bf[2], INF);
    assert!(reconstruir_caminho(0, 2, &ant_bf).is_empty());
}

#[test]
fn motores_sao_idempotentes() {
    let gr = grafo_exemplo();
    let primeira_dij = dijikstra(&gr, &0);
    let segunda_dij = dijikstra(&gr, &0);
    assert_eq!(primeira_dij, segunda_dij);

    let primeira_bf = bellman_ford(&gr, &0).expect("no negative cycle");
    let segunda_bf = bellman_ford(&gr, &0).expect("no negative cycle");
    assert_eq!(primeira_bf, segunda_bf);

    let primeira_fw = floyd_rot_n_cost(&gr);
    let segunda_fw = floyd_rot_n_cost(&gr);
    assert_eq!(primeira_fw, segunda_fw);
}

#[test]
fn ciclo_negativo_detectado() {
    let mut gr = Graph::new(3, 3);
    gr.edge(0, 1, 1);
    gr.edge(1, 2, -3);
    gr.edge(2, 0, 1);
    let r = bellman_ford(&gr, &0);
    assert_eq!(r, Err(NegativeCycleError));
}

#[test]
fn bellman_ford_pesos_negativos_sem_ciclo() {
    // an energy-style graph: a downhill stretch recovers cost
    let mut gr = Graph::new(4, 4);
    gr.edge(0, 1, 5);
    gr.edge(1, 2, -2);
    gr.edge(2, 3, 4);
    gr.edge(0, 3, 9);
    let (d, ant) = bellman_ford(&gr, &0).expect("no negative cycle");
    assert_eq!(d, vec![0, 5, 3, 7]);
    assert_eq!(reconstruir_caminho(0, 3, &ant), vec![0, 1, 2, 3]);
}
