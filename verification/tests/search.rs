use network::algorithms::{breadth_first_search, depth_first_search, heap_dijkstra};
use network::compact_star::{compact_star_from_edge_vec, CompactStar, Edge};
use network::Network;

fn sample_network() -> CompactStar {
    let mut test_edges: Vec<Edge> = vec![
        (0, 1, 25, 30),
        (0, 2, 35, 50),
        (1, 3, 15, 40),
        (2, 1, 45, 10),
        (3, 2, 15, 30),
        (3, 4, 45, 60),
        (4, 2, 25, 20),
        (4, 3, 35, 50),
    ];
    compact_star_from_edge_vec(5, &mut test_edges).unwrap()
}

fn reached(start: u32, invalid: u32, pred: &[u32]) -> Vec<bool> {
    pred.iter().enumerate().map(|(v, p)| v as u32 == start || *p != invalid).collect()
}

#[test]
fn test_breadth_first_search() {
    let compact_star = sample_network();

    println!("breadth first search: {:?}", breadth_first_search(&compact_star, 0));
    println!("depth first search: {:?}", depth_first_search(&compact_star, 0));

    let mut test_edges: Vec<Edge> = vec![
        (0, 1, 6, 0),
        (0, 2, 4, 0),
        (1, 2, 2, 0),
        (1, 3, 2, 0),
        (2, 3, 1, 0),
        (2, 4, 2, 0),
        (3, 5, 7, 0),
        (4, 3, 1, 0),
        (4, 5, 3, 0),
    ];
    let compact_star = compact_star_from_edge_vec(6, &mut test_edges).unwrap();
    println!("dijkstra (with heap): {:?}", heap_dijkstra(&compact_star, 0));
}

#[test]
fn breadth_first_search_of_the_sample_network() {
    let compact_star = sample_network();
    assert_eq!(
        (vec![5, 0, 0, 1, 3], vec![0, 1, 2, 3, 4]),
        breadth_first_search(&compact_star, 0)
    );
    assert_eq!(
        (vec![5, 2, 3, 5, 3], vec![0, 3, 1, 0, 2]),
        breadth_first_search(&compact_star, 3)
    );
}

#[test]
fn depth_first_search_of_the_sample_network() {
    let compact_star = sample_network();
    assert_eq!(
        (vec![5, 0, 3, 1, 3], vec![0, 1, 3, 2, 4]),
        depth_first_search(&compact_star, 0)
    );
    assert_eq!(
        (vec![5, 2, 3, 5, 3], vec![0, 2, 1, 0, 3]),
        depth_first_search(&compact_star, 3)
    );
}

#[test]
fn search_from_a_single_node_reaches_only_itself() {
    let mut edges: Vec<Edge> = Vec::new();
    let star = compact_star_from_edge_vec(1, &mut edges).unwrap();
    assert_eq!((vec![1], vec![0]), breadth_first_search(&star, 0));
    assert_eq!((vec![1], vec![0]), depth_first_search(&star, 0));
}

#[test]
fn nodes_out_of_reach_keep_the_invalid_predecessor_and_rank_zero() {
    let mut edges: Vec<Edge> = vec![(0, 1, 1, 0), (1, 0, 1, 0), (2, 3, 1, 0), (3, 1, 1, 0)];
    let star = compact_star_from_edge_vec(5, &mut edges).unwrap();
    assert_eq!((vec![5, 0, 5, 5, 5], vec![0, 1, 0, 0, 0]), breadth_first_search(&star, 0));
    assert_eq!((vec![5, 0, 5, 5, 5], vec![0, 1, 0, 0, 0]), depth_first_search(&star, 0));
    assert_eq!((vec![1, 3, 5, 2, 5], vec![3, 2, 0, 1, 0]), breadth_first_search(&star, 2));
    assert_eq!((vec![5, 5, 5, 5, 5], vec![0, 0, 0, 0, 0]), depth_first_search(&star, 4));
}

#[test]
fn self_loops_and_parallel_arcs_do_not_confuse_the_search() {
    let mut edges: Vec<Edge> = vec![(0, 0, 1, 0), (0, 1, 1, 0), (0, 1, 2, 0), (1, 1, 1, 0), (1, 2, 1, 0)];
    let star = compact_star_from_edge_vec(3, &mut edges).unwrap();
    assert_eq!((vec![3, 0, 1], vec![0, 1, 2]), breadth_first_search(&star, 0));
    assert_eq!((vec![3, 0, 1], vec![0, 1, 2]), depth_first_search(&star, 0));
}

#[test]
fn both_searches_reach_the_same_nodes() {
    let mut seed: u64 = 12345;
    for round in 0..40u32 {
        let nodes = 1 + (round % 9) as usize;
        let arcs = (round as usize * 3) % 23;
        let mut edges: Vec<Edge> = Vec::new();
        for _ in 0..arcs {
            seed = seed.wrapping_mul(6364136223846793005).wrapping_add(1442695040888963407);
            let from = ((seed >> 33) % nodes as u64) as u32;
            seed = seed.wrapping_mul(6364136223846793005).wrapping_add(1442695040888963407);
            let to = ((seed >> 33) % nodes as u64) as u32;
            edges.push((from, to, 1, 0));
        }
        let star = compact_star_from_edge_vec(nodes, &mut edges).unwrap();
        let invalid = star.invalid_id();
        for start in 0..nodes as u32 {
            let (bfs_pred, bfs_order) = breadth_first_search(&star, start);
            let (dfs_pred, dfs_order) = depth_first_search(&star, start);
            assert_eq!(reached(start, invalid, &bfs_pred), reached(start, invalid, &dfs_pred));
            assert_eq!(invalid, bfs_pred[start as usize]);
            assert_eq!(invalid, dfs_pred[start as usize]);
            assert_eq!(0, bfs_order[start as usize]);
            assert_eq!(0, dfs_order[start as usize]);
            let count = reached(start, invalid, &bfs_pred).iter().filter(|r| **r).count();
            let mut bfs_ranks: Vec<u32> = Vec::new();
            let mut dfs_ranks: Vec<u32> = Vec::new();
            for v in 0..nodes {
                if v as u32 == start || bfs_pred[v] != invalid {
                    bfs_ranks.push(bfs_order[v]);
                    dfs_ranks.push(dfs_order[v]);
                } else {
                    assert_eq!(0, bfs_order[v]);
                    assert_eq!(0, dfs_order[v]);
                }
            }
            bfs_ranks.sort();
            dfs_ranks.sort();
            let ranks: Vec<u32> = (0..count as u32).collect();
            assert_eq!(ranks, bfs_ranks);
            assert_eq!(ranks, dfs_ranks);
            for v in 0..nodes {
                if v as u32 != start && bfs_pred[v] != invalid {
                    assert!(star.adjacent(bfs_pred[v]).contains(&(v as u32)));
                    assert!(bfs_order[bfs_pred[v] as usize] < bfs_order[v]);
                    assert!(star.adjacent(dfs_pred[v]).contains(&(v as u32)));
                    assert!(dfs_order[dfs_pred[v] as usize] < dfs_order[v]);
                }
            }
        }
    }
}

#[test]
fn a_search_run_twice_gives_the_same_result() {
    let star = sample_network();
    for start in 0..5u32 {
        assert_eq!(breadth_first_search(&star, start), breadth_first_search(&star, start));
        assert_eq!(depth_first_search(&star, start), depth_first_search(&star, start));
    }
}
