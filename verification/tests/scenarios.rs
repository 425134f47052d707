use caminhos::dijkstra::intersecao;
use caminhos::dijkstra::vertice_mais_proximo;
use caminhos::floydwarshall::floyd_rot_n_cost;
use caminhos::graph::Graph;
use caminhos::graph::INF;
use caminhos::scenario_one::def_central_station;
use caminhos::scenario_one::station_vector;
use caminhos::scenario_three::achar_node;
use caminhos::scenario_three::caminho_coord;

#[test]
fn vertice_mais_proximo_escolhe_menor_distancia() {
    let distancias = vec![5, 2, 9, 2];
    let abertos = vec![0, 2, 3];
    // vertex 1 is not open; among the open ones, 3 is nearest
    assert_eq!(vertice_mais_proximo(&distancias, &abertos), Some(3));
    assert_eq!(vertice_mais_proximo(&distancias, &Vec::new()), None);
    // a vertex at distance i32::MAX is never chosen
    let longe = vec![i32::MAX, i32::MAX];
    assert_eq!(vertice_mais_proximo(&longe, &vec![0, 1]), None);
}

#[test]
fn intersecao_filtra_vizinhos_abertos() {
    let mut gr = Graph::new(4, 3);
    gr.edge(0, 1, 1);
    gr.edge(0, 2, 1);
    gr.edge(0, 3, 1);
    let abertos = vec![3, 1];
    assert_eq!(intersecao(&abertos, &gr, &0), vec![1, 3]);
    assert_eq!(intersecao(&Vec::new(), &gr, &0), Vec::<usize>::new());
}

#[test]
fn estacao_central_da_matriz() {
    // row sums: row 0 -> 6, row 1 -> 4, row 2 -> 7: station 2 (1-indexed)
    let matriz = vec![vec![0, 2, 4], vec![1, 0, 3], vec![3, 4, 0]];
    assert_eq!(def_central_station(&matriz, 3), 2);
}

#[test]
fn estacao_central_ignora_linhas_com_infinito() {
    let matriz = vec![vec![0, INF, 1], vec![9, 0, 9], vec![INF, 2, 0]];
    // rows 0 and 2 contain INF, so row 1 wins despite its larger sum
    assert_eq!(def_central_station(&matriz, 3), 2);
    // when every row holds INF the first station is reported
    let tudo_inf = vec![vec![0, INF], vec![INF, 0]];
    assert_eq!(def_central_station(&tudo_inf, 2), 1);
}

#[test]
fn estacao_central_de_floyd() {
    let mut gr = Graph::new(3, 4);
    gr.edge(0, 1, 4);
    gr.edge(0, 2, 5);
    gr.edge(1, 0, 3);
    gr.edge(2, 1, 3);
    let (cost, _rot) = floyd_rot_n_cost(&gr);
    // row sums: 0 -> 9, 1 -> 11, 2 -> 9: station 1 wins the tie
    assert_eq!(def_central_station(&cost, 3), 1);
    let (vetor, mais_longe, distancia) = station_vector(&cost, 1, 3);
    assert_eq!(vetor, vec![0, 4, 5]);
    assert_eq!(mais_longe, 3);
    assert_eq!(distancia, 5);
}

#[test]
fn vetor_da_estacao_escolhe_primeira_mais_distante() {
    let matriz = vec![vec![1, 7, 7, 2]];
    let (vetor, mais_longe, distancia) = station_vector(&matriz, 1, 4);
    assert_eq!(vetor, vec![1, 7, 7, 2]);
    assert_eq!(mais_longe, 2);
    assert_eq!(distancia, 7);
}

#[test]
fn achar_node_da_coordenada() {
    assert_eq!(achar_node(&(0, 0), 15), 0);
    assert_eq!(achar_node(&(3, 2), 15), 33);
    assert_eq!(achar_node(&(14, 0), 15), 14);
}

#[test]
fn caminho_em_direcoes() {
    // a walk on the 15-column grid: east, east, south, west, north
    let caminho = vec![0, 1, 2, 17, 16, 1];
    assert_eq!(caminho_coord(&caminho), vec!["E", "E", "S", "W", "N"]);
    // a jump that is not one grid step maps to "?"
    assert_eq!(caminho_coord(&vec![0, 7]), vec!["?"]);
    assert_eq!(caminho_coord(&Vec::new()), Vec::<&str>::new());
    assert_eq!(caminho_coord(&vec![4]), Vec::<&str>::new());
}
