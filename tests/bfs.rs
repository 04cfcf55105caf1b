use algorithms::bfs::{bfs, Graph};

fn sample_graph() -> Graph {
    vec![
        vec![1, 2],
        vec![0, 3, 4, 1],
        vec![0, 4],
        vec![1, 4, 5],
        vec![1, 2, 3, 5],
        vec![3, 4, 6],
        vec![7, 5],
        vec![6],
    ]
}

#[test]
fn existing_path() {
    let graph: Graph = sample_graph();

    assert_eq!(
        bfs(graph, 0, 7).unwrap(),
        vec![Some(0), Some(1), Some(3), Some(5), Some(6), Some(7)]
    )
}

#[test]
fn no_existing_path() {
    let graph: Graph = vec![
        vec![1, 2, 5],
        vec![0, 1, 3, 4],
        vec![0, 3],
        vec![1, 4, 5, 2],
        vec![1, 3, 5],
        vec![0, 3, 4, 1],
        vec![7],
        vec![6],
    ];

    assert_eq!(bfs(graph, 0, 7), None)
}

#[test]
fn path_to_self_is_single_vertex() {
    assert_eq!(bfs(sample_graph(), 3, 3), Some(vec![Some(3)]));
}

#[test]
fn path_from_nonzero_start() {
    assert_eq!(
        bfs(sample_graph(), 7, 0).unwrap(),
        vec![Some(7), Some(6), Some(5), Some(3), Some(1), Some(0)]
    );
}

#[test]
fn direct_neighbour_is_one_edge() {
    assert_eq!(bfs(sample_graph(), 0, 2), Some(vec![Some(0), Some(2)]));
}

#[test]
fn returned_path_follows_edges_without_repeats() {
    let graph = sample_graph();
    for start in 0..8u32 {
        for end in 0..8u32 {
            let path = bfs(sample_graph(), start, end).unwrap();
            let vs: Vec<u32> = path.iter().map(|x| x.unwrap()).collect();
            assert_eq!(vs[0], start);
            assert_eq!(*vs.last().unwrap(), end);
            for w in vs.windows(2) {
                assert!(graph[w[0] as usize].contains(&w[1]));
            }
            for a in 0..vs.len() {
                for b in a + 1..vs.len() {
                    assert_ne!(vs[a], vs[b]);
                }
            }
        }
    }
}

#[test]
fn one_way_edge_is_not_walked_back() {
    let graph: Graph = vec![vec![1], vec![]];
    assert_eq!(bfs(graph.clone(), 0, 1), Some(vec![Some(0), Some(1)]));
    assert_eq!(bfs(graph, 1, 0), None);
}
