use network::compact_star::{compact_star_from_edge_vec, BuildError, CompactStar, Edge};
use network::grouping::group_by_key;
use network::Network;

fn sample_edges() -> Vec<Edge> {
    vec![
        (0, 1, 25, 30),
        (0, 2, 35, 50),
        (1, 3, 15, 40),
        (2, 1, 45, 10),
        (3, 2, 15, 30),
        (3, 4, 45, 60),
        (4, 2, 25, 20),
        (4, 3, 35, 50),
    ]
}

#[test]
fn setup_sample_network() {
    let mut edges = sample_edges();
    let compact_star = compact_star_from_edge_vec(5, &mut edges).unwrap();
    assert_eq!(&vec![0, 2, 3, 4, 6, 8], compact_star.point());
    assert_eq!(&vec![0, 0, 2, 5, 7, 8], compact_star.rpoint());
    assert_eq!(&vec![0, 0, 1, 2, 3, 3, 4, 4], compact_star.tail());
    assert_eq!(&vec![1, 2, 3, 1, 2, 4, 2, 3], compact_star.head());
    assert_eq!(&vec![25, 35, 15, 45, 15, 45, 25, 35], compact_star.costs());
    assert_eq!(&vec![30, 50, 40, 10, 30, 60, 20, 50], compact_star.capacities());
    assert_eq!(&vec![0, 3, 1, 4, 6, 2, 7, 5], compact_star.trace());

    assert_eq!(5, compact_star.get_head(3, 4).unwrap_or(0));
    assert_eq!(35, compact_star.cost(4, 3).unwrap_or(0));
    assert_eq!(40, compact_star.capacity(1, 3).unwrap_or(0));
    assert_eq!(5, compact_star.num_nodes());
    assert_eq!(vec![1, 2], compact_star.adjacent(0));
    assert_eq!(vec![3], compact_star.adjacent(1));
    assert_eq!(vec![1], compact_star.adjacent(2));
    assert_eq!(vec![2, 4], compact_star.adjacent(3));
    assert_eq!(vec![2, 3], compact_star.adjacent(4));

    assert_eq!(5, compact_star.invalid_id());
}

#[test]
fn test_compact_star_from_edge_vec() {
    let mut edges = sample_edges();
    let comp_star_2 = compact_star_from_edge_vec(5, &mut edges).unwrap();

    assert_eq!(&vec![0, 2, 3, 4, 6, 8], comp_star_2.point());
    assert_eq!(&vec![0, 0, 2, 5, 7, 8], comp_star_2.rpoint());
    assert_eq!(&vec![0, 0, 1, 2, 3, 3, 4, 4], comp_star_2.tail());
    assert_eq!(&vec![1, 2, 3, 1, 2, 4, 2, 3], comp_star_2.head());
    assert_eq!(&vec![25, 35, 15, 45, 15, 45, 25, 35], comp_star_2.costs());
    assert_eq!(&vec![30, 50, 40, 10, 30, 60, 20, 50], comp_star_2.capacities());
    assert_eq!(&vec![0, 3, 1, 4, 6, 2, 7, 5], comp_star_2.trace());
    assert_eq!(240, comp_star_2.infinity());

    let mut again = sample_edges();
    let comp_star_1 = compact_star_from_edge_vec(5, &mut again).unwrap();
    assert_eq!(comp_star_1, comp_star_2);
}

#[test]
fn test_compact_start_from_edge_vec2() {
    let mut edges = vec![
        (0, 1, 6, 0),
        (0, 2, 4, 0),
        (1, 2, 2, 0),
        (1, 3, 2, 0),
        (2, 3, 1, 0),
        (2, 4, 2, 0),
        (3, 5, 7, 0),
        (4, 3, 1, 0),
        (4, 5, 3, 0),
    ];
    let compact_star = compact_star_from_edge_vec(6, &mut edges).unwrap();
    assert_eq!(6, compact_star.num_nodes());
    assert_eq!(&vec![0, 2, 4, 6, 7, 9, 9], compact_star.point());
}

#[test]
fn counts_of_a_built_network() {
    let mut edges = sample_edges();
    let star = compact_star_from_edge_vec(5, &mut edges).unwrap();
    assert_eq!(5, star.num_nodes());
    assert_eq!(8, star.num_arcs());
    let mut more_nodes = sample_edges();
    let wider = compact_star_from_edge_vec(9, &mut more_nodes).unwrap();
    assert_eq!(9, wider.num_nodes());
    assert_eq!(8, wider.num_arcs());
    assert_eq!(9, wider.invalid_id());
    assert_eq!(Vec::<u32>::new(), wider.adjacent(7));
}

#[test]
fn unsorted_arcs_are_grouped_by_source_in_their_order() {
    let mut edges: Vec<Edge> = vec![
        (2, 0, 7, 1),
        (0, 2, 1, 2),
        (1, 0, 3, 3),
        (0, 1, 5, 4),
        (2, 1, 9, 5),
        (0, 2, 4, 6),
    ];
    let star = compact_star_from_edge_vec(3, &mut edges).unwrap();
    assert_eq!(
        vec![(0, 2, 1, 2), (0, 1, 5, 4), (0, 2, 4, 6), (1, 0, 3, 3), (2, 0, 7, 1), (2, 1, 9, 5)],
        edges
    );
    assert_eq!(vec![2, 1, 2], star.adjacent(0));
    assert_eq!(vec![0], star.adjacent(1));
    assert_eq!(vec![0, 1], star.adjacent(2));
    assert_eq!(&vec![0, 3, 4, 6], star.point());
    assert_eq!(&vec![0, 2, 4, 6], star.rpoint());
    assert_eq!(&vec![3, 4, 1, 5, 0, 2], star.trace());
    assert_eq!(29, star.infinity());
}

#[test]
fn of_parallel_arcs_only_the_first_is_looked_up() {
    let mut edges: Vec<Edge> = vec![(0, 1, 5, 50), (0, 1, 3, 30), (1, 0, 2, 20)];
    let star = compact_star_from_edge_vec(2, &mut edges).unwrap();
    assert_eq!(vec![1, 1], star.adjacent(0));
    assert_eq!(Some(5), star.cost(0, 1));
    assert_eq!(Some(50), star.capacity(0, 1));
    assert_eq!(Some(0), star.get_head(0, 1));
    assert_eq!(Some(2), star.get_head(1, 0));
}

#[test]
fn lookup_of_a_missing_arc_gives_nothing() {
    let mut edges = sample_edges();
    let star = compact_star_from_edge_vec(5, &mut edges).unwrap();
    assert_eq!(None, star.cost(0, 3));
    assert_eq!(None, star.capacity(0, 3));
    assert_eq!(None, star.get_head(0, 3));
    assert_eq!(None, star.cost(0, 0));
    assert_eq!(None, star.cost(5, 0));
    assert_eq!(None, star.cost(0, 5));
    assert_eq!(None, star.get_head(4_000_000_000, 1));
    assert_eq!(Vec::<u32>::new(), star.adjacent(5));
    assert_eq!(Vec::<u32>::new(), star.adjacent(u32::MAX));
}

#[test]
fn arc_to_a_node_out_of_range_is_refused() {
    let mut edges: Vec<Edge> = vec![(0, 1, 1, 1), (1, 3, 1, 1)];
    let given = edges.clone();
    assert_eq!(Err(BuildError::NodeOutOfRange), compact_star_from_edge_vec(3, &mut edges));
    assert_eq!(given, edges);
    let mut from_out: Vec<Edge> = vec![(3, 0, 1, 1)];
    assert_eq!(Err(BuildError::NodeOutOfRange), compact_star_from_edge_vec(3, &mut from_out));
    let mut no_nodes: Vec<Edge> = vec![(0, 0, 1, 1)];
    assert_eq!(Err(BuildError::NodeOutOfRange), compact_star_from_edge_vec(0, &mut no_nodes));
}

#[test]
fn too_many_nodes_are_refused() {
    let mut edges: Vec<Edge> = Vec::new();
    let nodes = u32::MAX as usize + 1;
    assert_eq!(Err(BuildError::TooManyNodes), compact_star_from_edge_vec(nodes, &mut edges));
    let mut bad: Vec<Edge> = vec![(7, 7, u64::MAX, 0), (7, 7, u64::MAX, 0)];
    assert_eq!(Err(BuildError::TooManyNodes), compact_star_from_edge_vec(nodes, &mut bad));
}

#[test]
fn costs_that_do_not_add_up_are_refused() {
    let mut edges: Vec<Edge> = vec![(0, 1, u64::MAX, 0), (1, 0, 1, 0)];
    let given = edges.clone();
    assert_eq!(Err(BuildError::CostOverflow), compact_star_from_edge_vec(2, &mut edges));
    assert_eq!(given, edges);
    let mut fits: Vec<Edge> = vec![(0, 1, u64::MAX - 1, 0), (1, 0, 1, 0)];
    let star = compact_star_from_edge_vec(2, &mut fits).unwrap();
    assert_eq!(u64::MAX, star.infinity());
    let mut both: Vec<Edge> = vec![(0, 1, u64::MAX, 0), (1, 2, 1, 0)];
    assert_eq!(Err(BuildError::NodeOutOfRange), compact_star_from_edge_vec(2, &mut both));
}

#[test]
fn network_without_nodes_or_arcs() {
    let mut edges: Vec<Edge> = Vec::new();
    let star = compact_star_from_edge_vec(0, &mut edges).unwrap();
    assert_eq!(0, star.num_nodes());
    assert_eq!(0, star.num_arcs());
    assert_eq!(0, star.invalid_id());
    assert_eq!(0, star.infinity());
    assert_eq!(&vec![0], star.point());
    assert_eq!(&vec![0], star.rpoint());
    assert_eq!(Vec::<u32>::new(), star.adjacent(0));
    let fresh = CompactStar::new(6, 8);
    assert_eq!(0, fresh.num_nodes());
    assert_eq!(0, fresh.num_arcs());
    assert_eq!(0, fresh.infinity());
    assert_eq!(star, fresh);
}

#[test]
fn single_node_without_arcs() {
    let mut edges: Vec<Edge> = Vec::new();
    let star = compact_star_from_edge_vec(1, &mut edges).unwrap();
    assert_eq!(1, star.num_nodes());
    assert_eq!(0, star.num_arcs());
    assert_eq!(1, star.invalid_id());
    assert_eq!(Vec::<u32>::new(), star.adjacent(0));
    assert_eq!(&vec![0, 0], star.point());
}

#[test]
fn adjacency_is_the_targets_of_the_arcs_of_a_node() {
    let given: Vec<Edge> = vec![
        (3, 3, 1, 0),
        (1, 3, 1, 0),
        (3, 0, 1, 0),
        (1, 3, 1, 0),
        (0, 1, 1, 0),
        (3, 3, 1, 0),
        (1, 2, 1, 0),
    ];
    let mut edges = given.clone();
    let star = compact_star_from_edge_vec(4, &mut edges).unwrap();
    for i in 0..4u32 {
        let expected: Vec<u32> = given.iter().filter(|e| e.0 == i).map(|e| e.1).collect();
        assert_eq!(expected, star.adjacent(i));
    }
    assert_eq!(vec![3, 0, 3], star.adjacent(3));
    assert_eq!(Vec::<u32>::new(), star.adjacent(2));
}

#[test]
fn positions_are_grouped_by_key_in_their_order() {
    let keys: Vec<u32> = vec![2, 0, 1, 0, 2, 0];
    let (point, order) = group_by_key(&keys, 4);
    assert_eq!(vec![0, 3, 4, 6, 6], point);
    assert_eq!(vec![1, 3, 5, 2, 0, 4], order);
    let (point, order) = group_by_key(&Vec::new(), 2);
    assert_eq!(vec![0, 0, 0], point);
    assert_eq!(Vec::<u32>::new(), order);
    let (point, order) = group_by_key(&Vec::new(), 0);
    assert_eq!(vec![0], point);
    assert_eq!(Vec::<u32>::new(), order);
}
