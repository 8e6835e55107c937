use weighted_path::dijkstra::{
    dijkstra_binary, dijkstra_dial, dijkstra_fibonacci, dijkstra_fibonacci_unsafe,
    dijkstra_pairing, dijkstra_radix, find_shortest_path, find_shortest_path_directed,
    find_shortest_path_fibonacci, find_shortest_path_fibonacci_unsafe,
    find_shortest_path_pairing, find_shortest_path_radix, find_shortest_path_weighted,
    parse_graph, HeapKind,
};

#[test]
fn test_empty_input() {
    let result = find_shortest_path(vec![]);
    assert_eq!(result, Ok("-1".to_string()));
}

#[test]
fn test_single_node() {
    let input = vec!["1", "A"];
    let result = find_shortest_path(input);
    assert_eq!(result, Ok("A".to_string()));
}

#[test]
fn test_two_nodes_connected() {
    let input = vec!["2", "A", "B", "A|B|5"];
    let result = find_shortest_path(input);
    assert_eq!(result, Ok("A-B".to_string()));
}

#[test]
fn test_two_nodes_disconnected() {
    let input = vec!["2", "A", "B"];
    let result = find_shortest_path(input);
    assert_eq!(result, Ok("-1".to_string()));
}

#[test]
fn test_simple_path() {
    let input = vec!["3", "A", "B", "C", "A|B|2", "B|C|3"];
    let result = find_shortest_path(input);
    assert_eq!(result, Ok("A-B-C".to_string()));
}

#[test]
fn test_shortest_path_through_intermediate() {
    // Direct path A->D costs 100, but A->B->C->D costs 1+1+1=3
    let input = vec![
        "4", "A", "B", "C", "D", "A|B|1", "B|C|1", "C|D|1", "A|D|100",
    ];
    let result = find_shortest_path(input);
    assert_eq!(result, Ok("A-B-C-D".to_string()));
}

#[test]
fn test_invalid_node_count() {
    let input = vec!["abc"];
    let result = find_shortest_path(input);
    assert!(result.is_err());
    assert!(result.unwrap_err().contains("Invalid number of nodes"));
}

#[test]
fn test_not_enough_nodes() {
    let input = vec!["3", "A", "B"];
    let result = find_shortest_path(input);
    assert!(result.is_err());
    assert!(result.unwrap_err().contains("Not enough lines"));
}

#[test]
fn test_duplicate_node_names() {
    let input = vec!["2", "A", "A", "A|A|5"];
    let result = find_shortest_path(input);
    assert!(result.is_err());
    assert!(result.unwrap_err().contains("Duplicate node name"));
}

#[test]
fn test_invalid_edge_format() {
    let input = vec!["2", "A", "B", "A|B"];
    let result = find_shortest_path(input);
    assert!(result.is_err());
    assert!(result.unwrap_err().contains("Invalid edge format"));
}

#[test]
fn test_node_not_in_list() {
    let input = vec!["2", "A", "B", "A|C|5"];
    let result = find_shortest_path(input);
    assert!(result.is_err());
    assert!(result.unwrap_err().contains("not found in node list"));
}

#[test]
fn test_invalid_weight() {
    let input = vec!["2", "A", "B", "A|B|abc"];
    let result = find_shortest_path(input);
    assert!(result.is_err());
    assert!(result.unwrap_err().contains("Invalid weight"));
}

#[test]
fn test_self_loop() {
    let input = vec!["2", "A", "B", "A|A|5"];
    let result = find_shortest_path(input);
    assert!(result.is_err());
    assert!(result.unwrap_err().contains("Self-loop detected"));
}

#[test]
fn test_empty_node_name() {
    let input = vec!["2", "", "B", "A|B|5"];
    let result = find_shortest_path(input);
    assert!(result.is_err());
    assert!(result.unwrap_err().contains("Empty node name"));
}

#[test]
fn test_zero_nodes() {
    let input = vec!["0"];
    let result = find_shortest_path(input);
    assert_eq!(result, Ok("-1".to_string()));
}

#[test]
fn test_empty_lines_in_edges() {
    // Should skip empty lines in edge definitions
    let input = vec!["2", "A", "B", "A|B|5", "", "A|B|3"];
    let result = find_shortest_path(input);
    // Should work, but the last edge will overwrite the first
    assert_eq!(result, Ok("A-B".to_string()));
}

#[test]
fn exact_error_messages() {
    assert_eq!(find_shortest_path(vec!["abc"]), Err("Invalid number of nodes: 'abc' (expected a positive integer)".to_string()));
    assert_eq!(find_shortest_path(vec!["3", "A", "B"]), Err("Not enough lines: expected 3 node names, but only 2 lines provided".to_string()));
    assert_eq!(find_shortest_path(vec!["2", "A", "A"]), Err("Duplicate node name: 'A'".to_string()));
    assert_eq!(find_shortest_path(vec!["2", "A", " "]), Err("Empty node name at line 3".to_string()));
    assert_eq!(find_shortest_path(vec!["2", "A", "B", " A | B "]), Err("Invalid edge format at line 4: 'A | B' (expected format: node1|node2|weight)".to_string()));
    assert_eq!(find_shortest_path(vec!["2", "A", "B", "A|C|5"]), Err("Node 'C' in edge definition not found in node list".to_string()));
    assert_eq!(find_shortest_path(vec!["2", "A", "B", "A|B|-1"]), Err("Invalid weight '-1' in edge 'A|B|-1' (expected a positive integer)".to_string()));
    assert_eq!(find_shortest_path(vec!["2", "A", "B", "B|B|1"]), Err("Self-loop detected: node 'B' connected to itself".to_string()));
}

#[test]
fn names_and_weights_are_trimmed() {
    let input = vec!["3", "  A ", "B", " C", " A |  B | +2 ", "B|C|3"];
    assert_eq!(find_shortest_path(input), Ok("A-B-C".to_string()));
    // The node count itself is not trimmed
    assert_eq!(
        find_shortest_path(vec![" 3", "A", "B", "C"]),
        Err("Invalid number of nodes: ' 3' (expected a positive integer)".to_string())
    );
}

#[test]
fn directed_edges_follow_their_direction() {
    let input = vec!["2", "A", "B", "B|A|1"];
    assert_eq!(find_shortest_path_directed(input.clone(), false), Ok("-1".to_string()));
    assert_eq!(find_shortest_path_directed(input, true), Ok("A-B".to_string()));
}

#[test]
fn every_heap_finds_the_same_path() {
    let input = vec![
        "5", "S", "A", "B", "C", "T", "S|A|4", "S|B|1", "B|A|2", "A|C|1", "B|C|5", "C|T|3",
    ];
    let expected = Ok("S-B-A-C-T".to_string());
    assert_eq!(find_shortest_path(input.clone()), expected);
    assert_eq!(find_shortest_path_pairing(input.clone()), expected);
    assert_eq!(find_shortest_path_radix(input), expected);
}

#[test]
fn parse_graph_builds_adjacency() {
    let lines = vec!["3", "A", "B", "C", "A|B|2", "B|C|7"];
    let parsed = parse_graph(&lines, true).unwrap();
    assert_eq!(parsed.graph, vec![vec![(1, 2)], vec![(0, 2), (2, 7)], vec![(1, 7)]]);
    assert_eq!(parsed.nodes_reverse.get(&2), Some(&"C"));
    let directed = parse_graph(&lines, false).unwrap();
    assert_eq!(directed.graph, vec![vec![(1, 2)], vec![(2, 7)], vec![]]);
}

#[test]
fn parse_graph_rejects_empty_input() {
    let lines: Vec<&str> = vec![];
    assert_eq!(parse_graph(&lines, true).err(), Some("No input lines provided".to_string()));
}

#[test]
fn dijkstra_variants_agree() {
    let graph = vec![
        vec![(1, 4), (2, 2)],
        vec![(2, 1), (3, 5)],
        vec![(1, 1), (3, 8), (4, 10)],
        vec![(4, 2)],
        vec![],
    ];
    let expected = vec![0, 2, 1, 3, 4];
    assert_eq!(dijkstra_binary(0, 4, &graph), (expected.clone(), Some(10)));
    assert_eq!(dijkstra_pairing(0, 4, &graph), (expected.clone(), Some(10)));
    assert_eq!(dijkstra_radix(0, 4, &graph), (expected.clone(), Some(10)));
    assert_eq!(dijkstra_dial(0, 4, &graph), (expected.clone(), Some(10)));
    let disconnected = vec![vec![], vec![]];
    assert_eq!(dijkstra_binary(0, 1, &disconnected), (Vec::<usize>::new(), None));
    assert_eq!(dijkstra_dial(0, 1, &disconnected), (Vec::<usize>::new(), None));
    assert_eq!(dijkstra_radix(0, 0, &disconnected), (vec![0], Some(0)));
}

#[test]
fn test_fibonacci_heap_simple() {
    // Test that Fibonacci heap version produces same results as binary heap
    let graph = vec![
        vec![(1, 2), (2, 4)], // node 0
        vec![(0, 2), (3, 1)], // node 1
        vec![(0, 4), (3, 5)], // node 2
        vec![(1, 1), (2, 5)], // node 3
    ];
    let (path_binary, _) = dijkstra_binary(0, 3, &graph);
    let (path_fib, _) = dijkstra_fibonacci(0, 3, &graph);
    assert_eq!(path_binary, path_fib);
    assert_eq!(path_binary, vec![0, 1, 3]);
}

#[test]
fn test_fibonacci_heap_comprehensive() {
    // Comprehensive test comparing both implementations on various graphs
    let test_cases: Vec<(Vec<Vec<(usize, u32)>>, usize, usize, Vec<usize>)> = vec![
        // Simple path
        (
            vec![vec![(1, 1)], vec![(2, 1)], vec![]],
            0,
            2,
            vec![0, 1, 2],
        ),
        // Disconnected nodes
        (vec![vec![], vec![]], 0, 1, vec![]),
        // Single node
        (vec![vec![]], 0, 0, vec![0]),
        // Complex graph
        (
            vec![
                vec![(1, 4), (2, 2)],          // node 0
                vec![(2, 1), (3, 5)],          // node 1
                vec![(1, 1), (3, 8), (4, 10)], // node 2
                vec![(4, 2)],                  // node 3
                vec![],                        // node 4
            ],
            0,
            4,
            vec![0, 2, 1, 3, 4],
        ),
        // Graph with multiple paths
        (
            vec![
                vec![(1, 1), (2, 5)], // node 0
                vec![(2, 1), (3, 2)], // node 1
                vec![(3, 3)],         // node 2
                vec![],               // node 3
            ],
            0,
            3,
            vec![0, 1, 3],
        ),
    ];

    for (graph, start, end, expected_path) in test_cases {
        let (path_binary, _) = dijkstra_binary(start, end, &graph);
        let (path_fib, _) = dijkstra_fibonacci(start, end, &graph);

        assert_eq!(
            path_binary, path_fib,
            "Mismatch for graph: start={}, end={}, binary={:?}, fib={:?}",
            start, end, path_binary, path_fib
        );

        if !expected_path.is_empty() {
            assert_eq!(
                path_binary, expected_path,
                "Path doesn't match expected: got {:?}, expected {:?}",
                path_binary, expected_path
            );
        }
    }
}

#[test]
fn fibonacci_variants_agree_with_binary_heap() {
    let graph = vec![
        vec![(1, 4), (2, 2)],
        vec![(2, 1), (3, 5)],
        vec![(1, 1), (3, 8), (4, 10)],
        vec![(4, 2)],
        vec![],
    ];
    let expected = vec![0, 2, 1, 3, 4];
    assert_eq!(dijkstra_fibonacci(0, 4, &graph), (expected.clone(), Some(10)));
    assert_eq!(dijkstra_fibonacci_unsafe(0, 4, &graph), (expected.clone(), Some(10)));
    assert_eq!(dijkstra_fibonacci_unsafe(4, 0, &graph), (Vec::<usize>::new(), None));
    assert_eq!(dijkstra_fibonacci_unsafe(3, 3, &graph), (vec![3], Some(0)));
}

#[test]
fn fibonacci_text_answers() {
    let input = vec!["4", "A", "B", "C", "D", "A|B|1", "B|C|1", "C|D|1", "A|D|100"];
    assert_eq!(find_shortest_path_fibonacci(input.clone()), Ok("A-B-C-D".to_string()));
    assert_eq!(find_shortest_path_fibonacci_unsafe(input), Ok("A-B-C-D".to_string()));
    let bad = vec!["2", "A", "B", "A|B|x"];
    assert_eq!(
        find_shortest_path_fibonacci(bad.clone()),
        find_shortest_path(bad.clone())
    );
    assert!(find_shortest_path_fibonacci_unsafe(bad).is_err());
    assert_eq!(find_shortest_path_fibonacci(vec!["2", "A", "B"]), Ok("-1".to_string()));
}

#[test]
fn fibonacci_dijkstra_on_a_larger_graph() {
    // A grid of 12 x 12 nodes with edges right and down; weights vary by position
    let side = 12usize;
    let n = side * side;
    let mut graph: Vec<Vec<(usize, u32)>> = vec![Vec::new(); n];
    for r in 0..side {
        for c in 0..side {
            let u = r * side + c;
            if c + 1 < side {
                graph[u].push((u + 1, ((r * 7 + c * 3) % 5 + 1) as u32));
            }
            if r + 1 < side {
                graph[u].push((u + side, ((r * 5 + c * 11) % 7 + 1) as u32));
            }
        }
    }
    let weight = |p: &Vec<usize>| -> u32 {
        let mut total = 0u32;
        for k in 1..p.len() {
            let (u, v) = (p[k - 1], p[k]);
            total += graph[u].iter().filter(|e| e.0 == v).map(|e| e.1).min().unwrap();
        }
        total
    };
    let (binary, d_binary) = dijkstra_binary(0, n - 1, &graph);
    let (fib, d_fib) = dijkstra_fibonacci(0, n - 1, &graph);
    let (fib_unsafe, d_fib_unsafe) = dijkstra_fibonacci_unsafe(0, n - 1, &graph);
    let (pairing, d_pairing) = dijkstra_pairing(0, n - 1, &graph);
    assert_eq!(d_binary, Some(weight(&binary)));
    assert_eq!(d_fib, d_binary);
    assert_eq!(d_fib_unsafe, d_binary);
    assert_eq!(d_pairing, d_binary);
    assert!(!binary.is_empty());
    assert_eq!(weight(&binary), weight(&fib));
    assert_eq!(weight(&binary), weight(&fib_unsafe));
    assert_eq!(weight(&binary), weight(&pairing));
    assert_eq!(fib.first(), Some(&0));
    assert_eq!(fib.last(), Some(&(n - 1)));
}

#[test]
fn bidirectional_graph_is_symmetric() {
    let lines = vec!["4", "A", "B", "C", "D", "A|B|2", "C|B|11", "", "C|D|3", "B|D|2", "A|B|9"];
    let parsed = parse_graph(&lines, true).unwrap();
    let g = &parsed.graph;
    for (u, edges) in g.iter().enumerate() {
        for &(v, w) in edges {
            assert!(g[v].contains(&(u, w)), "edge {}->{} ({}) has no edge back", u, v, w);
        }
    }
    // The shortest path from A to D is as long as the one from D to A
    let there = dijkstra_binary(0, 3, g);
    let back = dijkstra_fibonacci(3, 0, g);
    // The last weight given for A and B (9) wins
    assert_eq!(there, (vec![0, 1, 3], Some(11)));
    assert_eq!(back, (vec![3, 1, 0], Some(11)));
}

#[test]
fn all_front_ends_answer_alike() {
    let inputs: Vec<Vec<&str>> = vec![
        vec![],
        vec!["0"],
        vec!["1", "solo"],
        vec!["3", "A", "B", "C", "A|B|1"],
        vec!["3", "A", "B", "C", "A|B|1", "B|C|2", "A|C|3"],
        vec!["2", "A", "B", "A|B"],
        vec!["2", "A", "A"],
    ];
    for input in inputs {
        let reference = find_shortest_path(input.clone());
        let others = [
            find_shortest_path_fibonacci(input.clone()),
            find_shortest_path_fibonacci_unsafe(input.clone()),
            find_shortest_path_pairing(input.clone()),
            find_shortest_path_radix(input.clone()),
            find_shortest_path_directed(input.clone(), true),
        ];
        for other in others.iter() {
            assert_eq!(reference.is_ok(), other.is_ok());
            if reference.is_err() {
                assert_eq!(&reference, other);
            }
            if reference == Ok("-1".to_string()) {
                assert_eq!(other, &Ok("-1".to_string()));
            }
        }
    }
}

#[test]
fn repeated_pair_takes_the_last_weight() {
    let lines = vec!["3", "A", "B", "C", "A|C|1", "C|A|10", "A|B|2", "B|C|2"];
    assert_eq!(find_shortest_path_directed(lines.clone(), true), Ok("A-B-C".to_string()));
    assert_eq!(find_shortest_path(lines.clone()), Ok("A-B-C".to_string()));
    let parsed = parse_graph(&lines, true).unwrap();
    assert_eq!(parsed.graph[0], vec![(2, 10), (1, 2)]);
    assert_eq!(parsed.graph[2], vec![(0, 10), (1, 2)]);
    // Read one way, both edges stay
    assert_eq!(find_shortest_path_directed(lines.clone(), false), Ok("A-C".to_string()));
    let directed = parse_graph(&lines, false).unwrap();
    assert_eq!(directed.graph[0], vec![(2, 1), (1, 2)]);
}

#[test]
fn readme_example_distance() {
    let lines = vec!["4", "A", "B", "C", "D", "A|B|2", "C|B|11", "C|D|3", "B|D|2"];
    assert_eq!(find_shortest_path(lines.clone()), Ok("A-B-D".to_string()));
    let parsed = parse_graph(&lines, true).unwrap();
    assert_eq!(dijkstra_binary(0, 3, &parsed.graph), (vec![0, 1, 3], Some(4)));
    assert_eq!(dijkstra_dial(0, 3, &parsed.graph), (vec![0, 1, 3], Some(4)));
    assert_eq!(dijkstra_generic_binary_like(&parsed.graph), (vec![0, 1, 3], Some(4)));
}

fn dijkstra_generic_binary_like(graph: &[Vec<(usize, u32)>]) -> (Vec<usize>, Option<u32>) {
    weighted_path::dijkstra::dijkstra_generic(0, 3, graph, weighted_path::pairing::PairingHeap::new())
}

#[test]
fn zero_weight_cycles_give_simple_paths() {
    // A zero-weight cycle between A and B, and a zero-weight edge back to A
    let graph = vec![vec![(1, 0)], vec![(0, 0), (2, 0)], vec![(0, 0)]];
    let (p, d) = dijkstra_binary(0, 0, &graph);
    assert_eq!((p, d), (vec![0], Some(0)));
    let (p, d) = dijkstra_fibonacci(0, 2, &graph);
    assert_eq!((p, d), (vec![0, 1, 2], Some(0)));
}

#[test]
fn weighted_answers_carry_the_distance() {
    let lines = vec!["4", "A", "B", "C", "D", "A|B|2", "C|B|11", "C|D|3", "B|D|2"];
    for kind in [
        HeapKind::Binary,
        HeapKind::Fibonacci,
        HeapKind::FibonacciUnsafe,
        HeapKind::Pairing,
        HeapKind::Radix,
        HeapKind::Dial,
    ] {
        assert_eq!(
            find_shortest_path_weighted(lines.clone(), true, kind),
            Ok(("A-B-D".to_string(), Some(4)))
        );
    }
    assert_eq!(
        find_shortest_path_weighted(vec!["1", "A"], true, HeapKind::Dial),
        Ok(("A".to_string(), Some(0)))
    );
    assert_eq!(
        find_shortest_path_weighted(vec!["2", "A", "B"], true, HeapKind::Binary),
        Ok(("-1".to_string(), None))
    );
    assert_eq!(
        find_shortest_path_weighted(vec![], false, HeapKind::Pairing),
        Ok(("-1".to_string(), None))
    );
    assert_eq!(
        find_shortest_path_weighted(vec!["2", "A", "B", "A|B|x"], true, HeapKind::Radix),
        Err("Invalid weight 'x' in edge 'A|B|x' (expected a positive integer)".to_string())
    );
}

#[test]
fn dial_agrees_with_binary_heap_on_light_graphs() {
    let graphs: Vec<Vec<Vec<(usize, u32)>>> = vec![
        vec![vec![(1, 4), (2, 2)], vec![(2, 1), (3, 5)], vec![(1, 1), (3, 8), (4, 10)], vec![(4, 2)], vec![]],
        vec![vec![(1, 0)], vec![(0, 0), (2, 7)], vec![]],
        vec![vec![], vec![(0, 3)]],
    ];
    for g in graphs.iter() {
        let last = g.len() - 1;
        let (pd, dd) = dijkstra_dial(0, last, g);
        let (pb, db) = dijkstra_binary(0, last, g);
        assert_eq!(dd, db);
        assert_eq!(pd.is_empty(), pb.is_empty());
    }
}
