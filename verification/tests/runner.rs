use network::alg_runner::{dijkstra_rows, get_node_name, Algorithm, MAX_ROWS};
use network::algorithms::{build_adj_list, dijkstra, out_degrees};
use network::compact_star::{compact_star_from_edge_vec, Edge};
use network::parse_text::{assign_node_id, inc_node_counter};
use std::collections::HashMap;

fn rank_edges() -> Vec<Edge> {
    vec![
        (0, 1, 0, 0),
        (0, 2, 0, 0),
        (0, 3, 0, 0),
        (1, 2, 0, 0),
        (1, 3, 0, 0),
        (2, 0, 0, 0),
        (3, 0, 0, 0),
        (3, 2, 0, 0),
    ]
}

#[test]
fn test_build_adj_list() {
    let mut edges = rank_edges();
    let compact_star = compact_star_from_edge_vec(4, &mut edges).unwrap();
    let adj_list = vec![vec![1, 2, 3], vec![2, 3], vec![0], vec![0, 2]];
    assert_eq!(adj_list, build_adj_list(&compact_star));
}

#[test]
fn out_degrees_of_the_rank_network() {
    let mut edges = rank_edges();
    let compact_star = compact_star_from_edge_vec(4, &mut edges).unwrap();
    assert_eq!(vec![3, 2, 1, 2], out_degrees(&compact_star));
    let mut dangling: Vec<Edge> = vec![(0, 1, 0, 0), (0, 1, 0, 0)];
    let star = compact_star_from_edge_vec(3, &mut dangling).unwrap();
    assert_eq!(vec![2, 0, 0], out_degrees(&star));
    assert_eq!(vec![vec![1, 1], vec![], vec![]], build_adj_list(&star));
}

#[test]
fn node_names() {
    let mut id_to_node: HashMap<u32, String> = HashMap::new();
    id_to_node.insert(0, "Aachen".to_string());
    id_to_node.insert(1, "Bonn".to_string());
    assert_eq!("Aachen", get_node_name(&0, &id_to_node));
    assert_eq!("Bonn", get_node_name(&1, &id_to_node));
    assert_eq!("NONE", get_node_name(&2, &id_to_node));
    assert_eq!("NONE", get_node_name(&7, &HashMap::new()));
}

#[test]
fn rows_of_a_shortest_path_result() {
    let mut edges: Vec<Edge> = vec![(0, 1, 2, 0), (1, 0, 3, 0)];
    let star = compact_star_from_edge_vec(3, &mut edges).unwrap();
    let (pred, cost) = dijkstra(&star, 0, true);
    let mut id_to_node: HashMap<u32, String> = HashMap::new();
    id_to_node.insert(0, "a".to_string());
    id_to_node.insert(1, "b".to_string());
    id_to_node.insert(2, "c".to_string());
    let rows = dijkstra_rows(&pred, &cost, &id_to_node);
    let shown: Vec<(String, String, u64)> =
        rows.into_iter().map(|r| (r.from_node, r.to_node, r.cost)).collect();
    assert_eq!(
        vec![
            ("NONE".to_string(), "a".to_string(), 0),
            ("a".to_string(), "b".to_string(), 2),
            ("NONE".to_string(), "c".to_string(), 5),
        ],
        shown
    );
}

#[test]
fn no_more_rows_than_the_limit() {
    assert_eq!(100, MAX_ROWS);
    let pred: Vec<u32> = (0..250).collect();
    let cost: Vec<u64> = (0..250).map(|c| c * 10).collect();
    let rows = dijkstra_rows(&pred, &cost, &HashMap::new());
    assert_eq!(100, rows.len());
    assert_eq!(990, rows[99].cost);
    assert_eq!("NONE", rows[99].to_node);
    let rows = dijkstra_rows(&pred[..100].to_vec(), &cost[..100].to_vec(), &HashMap::new());
    assert_eq!(100, rows.len());
    let rows = dijkstra_rows(&pred[..99].to_vec(), &cost[..99].to_vec(), &HashMap::new());
    assert_eq!(99, rows.len());
    let rows = dijkstra_rows(&Vec::new(), &Vec::new(), &HashMap::new());
    assert_eq!(0, rows.len());
}

#[test]
fn algorithms_to_choose_from() {
    assert_eq!(Algorithm::dijkstra, Algorithm::dijkstra);
    assert_ne!(Algorithm::dijkstra, Algorithm::pagerank);
    assert_eq!("pagerank", format!("{:?}", Algorithm::pagerank));
}

#[test]
fn node_counter_hands_out_rising_ids() {
    let mut next_node = 0;
    assert_eq!(0, inc_node_counter(&mut next_node));
    assert_eq!(1, inc_node_counter(&mut next_node));
    assert_eq!(2, inc_node_counter(&mut next_node));
    assert_eq!(3, next_node);
    let mut last = u32::MAX - 1;
    assert_eq!(u32::MAX - 1, inc_node_counter(&mut last));
    assert_eq!(u32::MAX, last);
}

#[test]
fn ids_are_given_in_the_order_of_first_sight() {
    let names = ["x", "y", "x", "z", "y", "w"];
    let mut node_to_id: HashMap<String, u32> = HashMap::new();
    let mut next_node = 0;
    let mut ids = Vec::new();
    for name in names {
        let id = assign_node_id(node_to_id.get(name).copied(), &mut next_node);
        node_to_id.insert(name.to_string(), id);
        ids.push(id);
    }
    assert_eq!(vec![0, 1, 0, 2, 1, 3], ids);
    assert_eq!(4, next_node);
    assert_eq!(9, assign_node_id(Some(9), &mut next_node));
    assert_eq!(4, next_node);
}
