use network::algorithms::{dijkstra, find_min_index, heap_dijkstra, vanilla_dijkstra};
use network::compact_star::{compact_star_from_edge_vec, CompactStar, Edge};
use network::Network;

fn six_nodes() -> CompactStar {
    let mut edges: Vec<Edge> = vec![
        (0, 1, 6, 0),
        (0, 2, 4, 0),
        (1, 2, 2, 0),
        (1, 3, 2, 0),
        (2, 3, 1, 0),
        (2, 4, 2, 0),
        (3, 5, 7, 0),
        (4, 3, 1, 0),
        (4, 5, 3, 0),
    ];
    compact_star_from_edge_vec(6, &mut edges).unwrap()
}

#[test]
fn test_dijkstra() {
    let compact_star = six_nodes();
    let (pred, dist) = dijkstra(&compact_star, 0, false);
    assert_eq!(6, pred.len());
    assert_eq!(6, dist.len());
    assert_eq!(vec![6, 0, 0, 2, 2, 4], pred);
    assert_eq!(vec![0, 6, 4, 5, 6, 9], dist);
}

#[test]
fn test_heap_dijkstra() {
    let compact_star = six_nodes();
    let (pred, dist) = dijkstra(&compact_star, 0, true);
    assert_eq!(6, pred.len());
    assert_eq!(6, dist.len());
    assert_eq!(vec![6, 0, 0, 2, 2, 4], pred);
    assert_eq!(vec![0, 6, 4, 5, 6, 9], dist);
}

#[test]
fn both_strategies_by_their_own_names() {
    let compact_star = six_nodes();
    assert_eq!((vec![6, 0, 0, 2, 2, 4], vec![0, 6, 4, 5, 6, 9]), vanilla_dijkstra(&compact_star, 0));
    assert_eq!((vec![6, 0, 0, 2, 2, 4], vec![0, 6, 4, 5, 6, 9]), heap_dijkstra(&compact_star, 0));
    assert_eq!(
        (vec![6, 6, 6, 4, 6, 4], vec![28, 28, 28, 1, 0, 3]),
        vanilla_dijkstra(&compact_star, 4)
    );
    assert_eq!((vec![6, 6, 6, 4, 6, 4], vec![28, 28, 28, 1, 0, 3]), heap_dijkstra(&compact_star, 4));
}

#[test]
fn dijkstra_on_a_single_node() {
    let mut edges: Vec<Edge> = Vec::new();
    let star = compact_star_from_edge_vec(1, &mut edges).unwrap();
    assert_eq!((vec![1], vec![0]), vanilla_dijkstra(&star, 0));
    assert_eq!((vec![1], vec![0]), heap_dijkstra(&star, 0));
    let mut looped: Vec<Edge> = vec![(0, 0, 4, 0)];
    let star = compact_star_from_edge_vec(1, &mut looped).unwrap();
    assert_eq!((vec![1], vec![0]), vanilla_dijkstra(&star, 0));
    assert_eq!((vec![1], vec![0]), heap_dijkstra(&star, 0));
}

#[test]
fn nodes_without_a_path_keep_the_cost_bound() {
    let mut edges: Vec<Edge> = vec![(0, 1, 2, 0), (1, 0, 3, 0), (2, 0, 1, 0)];
    let star = compact_star_from_edge_vec(4, &mut edges).unwrap();
    assert_eq!(6, star.infinity());
    assert_eq!((vec![4, 0, 4, 4], vec![0, 2, 6, 6]), vanilla_dijkstra(&star, 0));
    assert_eq!((vec![4, 0, 4, 4], vec![0, 2, 6, 6]), heap_dijkstra(&star, 0));
    assert_eq!((vec![2, 0, 4, 4], vec![1, 3, 0, 6]), vanilla_dijkstra(&star, 2));
    assert_eq!((vec![2, 0, 4, 4], vec![1, 3, 0, 6]), heap_dijkstra(&star, 2));
}

#[test]
fn a_path_that_costs_the_bound_is_not_taken() {
    let mut edges: Vec<Edge> = vec![(0, 1, 5, 0)];
    let star = compact_star_from_edge_vec(2, &mut edges).unwrap();
    assert_eq!(5, star.infinity());
    assert_eq!((vec![2, 2], vec![0, 5]), vanilla_dijkstra(&star, 0));
    assert_eq!((vec![2, 2], vec![0, 5]), heap_dijkstra(&star, 0));
}

#[test]
fn arcs_without_cost() {
    let mut edges: Vec<Edge> = vec![(0, 1, 0, 0), (1, 2, 0, 0)];
    let star = compact_star_from_edge_vec(3, &mut edges).unwrap();
    assert_eq!(0, star.infinity());
    assert_eq!((vec![3, 3, 3], vec![0, 0, 0]), vanilla_dijkstra(&star, 0));
    assert_eq!((vec![3, 3, 3], vec![0, 0, 0]), heap_dijkstra(&star, 0));
    assert_eq!((vec![3, 3, 3], vec![0, 0, 0]), heap_dijkstra(&star, 2));
    let mut mixed: Vec<Edge> = vec![(0, 1, 0, 0), (1, 2, 0, 0), (2, 3, 4, 0), (0, 3, 9, 0)];
    let star = compact_star_from_edge_vec(4, &mut mixed).unwrap();
    assert_eq!((vec![4, 0, 1, 2], vec![0, 0, 0, 4]), vanilla_dijkstra(&star, 0));
    assert_eq!((vec![4, 0, 1, 2], vec![0, 0, 0, 4]), heap_dijkstra(&star, 0));
}

#[test]
fn of_parallel_arcs_the_first_gives_the_cost() {
    let mut edges: Vec<Edge> = vec![(0, 1, 7, 0), (0, 1, 2, 0), (1, 2, 1, 0), (0, 2, 20, 0)];
    let star = compact_star_from_edge_vec(3, &mut edges).unwrap();
    assert_eq!((vec![3, 0, 1], vec![0, 7, 8]), vanilla_dijkstra(&star, 0));
    assert_eq!((vec![3, 0, 1], vec![0, 7, 8]), heap_dijkstra(&star, 0));
}

#[test]
fn costs_near_the_largest_number() {
    let big = u64::MAX / 2;
    let mut edges: Vec<Edge> = vec![(0, 1, big, 0), (1, 2, big, 0), (0, 2, 1, 0)];
    let star = compact_star_from_edge_vec(3, &mut edges).unwrap();
    assert_eq!(u64::MAX, star.infinity());
    assert_eq!((vec![3, 0, 0], vec![0, big, 1]), vanilla_dijkstra(&star, 0));
    assert_eq!((vec![3, 0, 0], vec![0, big, 1]), heap_dijkstra(&star, 0));
    assert_eq!((vec![3, 3, 1], vec![u64::MAX, 0, big]), vanilla_dijkstra(&star, 1));
    assert_eq!((vec![3, 3, 1], vec![u64::MAX, 0, big]), heap_dijkstra(&star, 1));
}

#[test]
fn both_strategies_agree() {
    let mut seed: u64 = 987654321;
    for round in 0..60u32 {
        let nodes = 1 + (round % 10) as usize;
        let arcs = (round as usize * 5) % 31;
        let mut edges: Vec<Edge> = Vec::new();
        for _ in 0..arcs {
            seed = seed.wrapping_mul(6364136223846793005).wrapping_add(1442695040888963407);
            let from = ((seed >> 33) % nodes as u64) as u32;
            seed = seed.wrapping_mul(6364136223846793005).wrapping_add(1442695040888963407);
            let to = ((seed >> 33) % nodes as u64) as u32;
            seed = seed.wrapping_mul(6364136223846793005).wrapping_add(1442695040888963407);
            let cost = (seed >> 33) % 4;
            edges.push((from, to, cost, 0));
        }
        let star = compact_star_from_edge_vec(nodes, &mut edges).unwrap();
        for source in 0..nodes as u32 {
            let by_array = vanilla_dijkstra(&star, source);
            let by_heap = heap_dijkstra(&star, source);
            assert_eq!(by_array, by_heap);
            assert_eq!(by_array, dijkstra(&star, source, false));
            assert_eq!(by_heap, dijkstra(&star, source, true));
            let (pred, dist) = by_array;
            assert_eq!(0, dist[source as usize]);
            assert_eq!(star.invalid_id(), pred[source as usize]);
            for v in 0..nodes {
                assert!(dist[v] <= star.infinity());
                for w in star.adjacent(v as u32) {
                    let cost = star.cost(v as u32, w).unwrap();
                    assert!(dist[w as usize] <= dist[v].saturating_add(cost));
                }
                if pred[v] != star.invalid_id() {
                    let cost = star.cost(pred[v], v as u32).unwrap();
                    assert_eq!(dist[v], dist[pred[v] as usize] + cost);
                    assert!(dist[v] < star.infinity());
                } else if v as u32 != source {
                    assert_eq!(star.infinity(), dist[v]);
                }
            }
        }
    }
}

#[test]
fn dijkstra_run_twice_gives_the_same_result() {
    let star = six_nodes();
    for source in 0..6u32 {
        assert_eq!(vanilla_dijkstra(&star, source), vanilla_dijkstra(&star, source));
        assert_eq!(heap_dijkstra(&star, source), heap_dijkstra(&star, source));
    }
}

#[test]
fn position_of_a_node_in_a_list() {
    assert_eq!(2, find_min_index(&vec![4, 7, 9, 1], 9));
    assert_eq!(0, find_min_index(&vec![4, 7, 9, 1], 4));
    assert_eq!(3, find_min_index(&vec![4, 7, 9, 1], 1));
    assert_eq!(0, find_min_index(&vec![4, 7, 9, 1], 5));
    assert_eq!(0, find_min_index(&Vec::new(), 5));
    assert_eq!(3, find_min_index(&vec![6, 2, 6, 6, 2], 6));
}
