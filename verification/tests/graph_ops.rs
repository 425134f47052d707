use caminhos::graph::Graph;
use caminhos::graph::GraphError;
use caminhos::graph::Node;
use caminhos::graph::create_ordered_matrix;
use caminhos::graph::get_peso;
use caminhos::graph::graph_from_numbers;
use caminhos::graph::grid_to_edges;

#[test]
fn construcao_basica() {
    let no = Node::new(3, -7);
    assert_eq!(no.value, 3);
    assert_eq!(no.weight, -7);

    let mut gr = Graph::new(4, 2);
    assert_eq!(gr.num_vertex(), 4);
    assert_eq!(gr.num_edges, 2);
    gr.edge(0, 1, 10);
    gr.edge(0, 3, 20);
    assert_eq!(gr.vizinhos(&0), vec![1, 3]);
    assert_eq!(gr.vizinhos(&1), Vec::<usize>::new());
    assert_eq!(gr.vertices_list(), vec![0, 1, 2, 3]);
}

#[test]
fn peso_primeira_aresta_paralela() {
    let mut gr = Graph::new(2, 3);
    gr.edge(0, 1, 9);
    gr.edge(0, 1, 2);
    gr.edge(0, 1, 5);
    // parallel edges are all retained, and lookup takes the first inserted
    assert_eq!(gr.vizinhos(&0), vec![1, 1, 1]);
    assert_eq!(gr.weight(&0, &1), Some(9));
    assert_eq!(gr.weight(&1, &0), None);
    assert_eq!(gr.weight(&7, &0), None);
}

#[test]
fn vizinho_mais_perto_escolhe_minimo() {
    let mut gr = Graph::new(4, 4);
    gr.edge(0, 1, 8);
    gr.edge(0, 2, 3);
    gr.edge(0, 3, 3);
    assert_eq!(gr.vizinho_mais_perto(&0), Some(2));
    assert_eq!(gr.vizinho_mais_perto(&1), None);
    assert_eq!(gr.vizinho_mais_perto(&9), None);

    // an edge of weight i32::MAX is never chosen
    let mut gr2 = Graph::new(2, 1);
    gr2.edge(0, 1, i32::MAX);
    assert_eq!(gr2.vizinho_mais_perto(&0), None);
}

#[test]
fn grafo_de_numeros_valido() {
    // 3 vertices, 2 edges: 1 -> 2 (7), 2 -> 3 (-1), all 1-indexed
    let numeros = vec![3, 2, 1, 2, 7, 2, 3, -1];
    let gr = graph_from_numbers(&numeros).expect("valid description");
    assert_eq!(gr.num_vertex(), 3);
    assert_eq!(gr.num_edges, 2);
    assert_eq!(gr.vizinhos(&0), vec![1]);
    assert_eq!(gr.weight(&0, &1), Some(7));
    assert_eq!(gr.weight(&1, &2), Some(-1));
    assert_eq!(gr.weight(&0, &2), None);
}

#[test]
fn grafo_de_numeros_vertice_invalido() {
    // edge names vertex 4 in a 3-vertex graph
    let numeros = vec![3, 1, 1, 4, 7];
    assert!(matches!(graph_from_numbers(&numeros), Err(GraphError::InvalidVertexId)));
    // 0 is invalid too: the text format is 1-indexed
    let numeros2 = vec![3, 1, 0, 2, 7];
    assert!(matches!(graph_from_numbers(&numeros2), Err(GraphError::InvalidVertexId)));
}

#[test]
fn matriz_ordenada_exemplos() {
    assert_eq!(create_ordered_matrix(2, 3), vec![vec![1, 2, 3], vec![4, 5, 6]]);
    assert_eq!(create_ordered_matrix(2, 2), vec![vec![1, 2], vec![3, 4]]);
}

#[test]
fn pesos_do_terreno() {
    assert_eq!(get_peso('.'), Some(1));
    assert_eq!(get_peso('~'), Some(3));
    assert_eq!(get_peso('S'), Some(1));
    assert_eq!(get_peso('G'), Some(1));
    assert_eq!(get_peso('#'), None);
    assert_eq!(get_peso('x'), Some(1));
}

#[test]
fn grade_para_arestas() {
    let mapa = vec![vec!['S', '.'], vec!['#', 'G']];
    let arestas = grid_to_edges(&mapa);
    // ids are 1-indexed row-major: S=1, .=2, #=3, G=4; no edge touches '#'
    assert_eq!(arestas, vec![(1, 2, 1), (2, 4, 1), (2, 1, 1), (4, 2, 1)]);
}

#[test]
fn grade_com_terreno_dificil() {
    let mapa = vec![vec!['S', '~', 'G']];
    let arestas = grid_to_edges(&mapa);
    // entering the '~' cell costs 3, entering 'S' or 'G' costs 1
    assert_eq!(arestas, vec![(1, 2, 3), (2, 1, 1), (2, 3, 1), (3, 2, 3)]);
}
