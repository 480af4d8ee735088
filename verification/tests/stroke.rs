use spryteo::stroke::graph::{build_stroke_graphs, GraphEdge, GraphNode, StrokeGraph};
use spryteo::stroke::skeleton::zhang_suen_thinning;
use spryteo::stroke::traverse::traverse_graph;
use spryteo::stroke::chain::{chain_pixels, sort_graphs};
use spryteo::stroke::filter::clear_small_components;
use spryteo::stroke::junctions::{junction_edges, merge_junctions, tie_labels};

fn grid(width: u32, height: u32, on: &[(u32, u32)]) -> Vec<bool> {
    let mut g = vec![false; (width * height) as usize];
    for &(x, y) in on {
        g[(y * width + x) as usize] = true;
    }
    g
}

#[test]
fn thinning_keeps_a_one_pixel_line() {
    let line = grid(5, 3, &[(1, 1), (2, 1), (3, 1)]);
    assert_eq!(zhang_suen_thinning(&line, 5, 3), line);
}

#[test]
fn thinning_removes_pixels_only_and_is_idempotent() {
    let mut on = Vec::new();
    for y in 1..6 {
        for x in 1..8 {
            on.push((x, y));
        }
    }
    let block = grid(9, 7, &on);
    let once = zhang_suen_thinning(&block, 9, 7);
    assert!(once.iter().zip(block.iter()).all(|(a, b)| !*a || *b));
    assert!(once.iter().filter(|b| **b).count() < block.iter().filter(|b| **b).count());
    assert!(once.iter().any(|b| *b));
    assert_eq!(zhang_suen_thinning(&once, 9, 7), once);
}

#[test]
fn thinning_empty_grid_is_empty() {
    assert!(zhang_suen_thinning(&[], 0, 0).is_empty());
}

#[test]
fn straight_line_gives_two_nodes_and_one_edge() {
    let skel = grid(7, 3, &[(1, 1), (2, 1), (3, 1), (4, 1), (5, 1)]);
    let graphs = build_stroke_graphs(&skel, 7, 3);
    assert_eq!(graphs.len(), 1);
    let g = &graphs[0];
    assert_eq!(g.nodes, vec![GraphNode { x: 1, y: 1 }, GraphNode { x: 5, y: 1 }]);
    assert_eq!(g.edges.len(), 1);
    assert_eq!((g.edges[0].from, g.edges[0].to), (0, 1));
    assert_eq!(g.edges[0].pixels, vec![(1, 1), (2, 1), (3, 1), (4, 1), (5, 1)]);
    assert_eq!(traverse_graph(g), vec![vec![(0, 1, 0, false)]]);
}

#[test]
fn plus_shape_has_a_junction_and_four_arms() {
    let skel = grid(7, 7, &[(1, 3), (2, 3), (3, 3), (4, 3), (5, 3), (3, 1), (3, 2), (3, 4), (3, 5)]);
    let graphs = build_stroke_graphs(&skel, 7, 7);
    assert_eq!(graphs.len(), 1);
    let g = &graphs[0];
    assert_eq!(
        g.nodes,
        vec![
            GraphNode { x: 3, y: 1 },
            GraphNode { x: 1, y: 3 },
            GraphNode { x: 3, y: 3 },
            GraphNode { x: 5, y: 3 },
            GraphNode { x: 3, y: 5 },
        ]
    );
    let ends: Vec<(usize, usize)> = g.edges.iter().map(|e| (e.from, e.to)).collect();
    assert_eq!(ends, vec![(0, 2), (1, 2), (2, 3), (2, 4)]);
    assert_eq!(g.edges[0].pixels, vec![(3, 1), (3, 2), (3, 3)]);
    let paths = traverse_graph(g);
    assert_eq!(
        paths,
        vec![vec![(0, 2, 0, false), (2, 1, 1, true)], vec![(3, 2, 2, true), (2, 4, 3, false)]]
    );
}

#[test]
fn closed_loop_is_anchored_at_its_first_pixel() {
    let skel = grid(4, 4, &[(1, 1), (2, 1), (1, 2), (2, 2)]);
    let graphs = build_stroke_graphs(&skel, 4, 4);
    assert_eq!(graphs.len(), 1);
    let g = &graphs[0];
    assert_eq!(g.nodes, vec![GraphNode { x: 1, y: 1 }]);
    assert_eq!(g.edges.len(), 1);
    assert_eq!((g.edges[0].from, g.edges[0].to), (0, 0));
    assert_eq!(g.edges[0].pixels, vec![(1, 1), (2, 1), (2, 2), (1, 2), (1, 1)]);
    assert_eq!(traverse_graph(g), vec![vec![(0, 0, 0, false)]]);
}

#[test]
fn separate_strokes_give_separate_graphs() {
    let skel = grid(8, 3, &[(0, 0), (1, 0), (5, 2), (6, 2), (7, 2)]);
    let graphs = build_stroke_graphs(&skel, 8, 3);
    assert_eq!(graphs.len(), 2);
    assert_eq!(graphs[0].nodes, vec![GraphNode { x: 0, y: 0 }, GraphNode { x: 1, y: 0 }]);
    assert_eq!(graphs[1].nodes, vec![GraphNode { x: 5, y: 2 }, GraphNode { x: 7, y: 2 }]);
}

#[test]
fn isolated_pixel_is_a_node_without_edges() {
    let skel = grid(3, 3, &[(1, 1)]);
    let graphs = build_stroke_graphs(&skel, 3, 3);
    assert_eq!(graphs.len(), 1);
    assert_eq!(graphs[0].nodes, vec![GraphNode { x: 1, y: 1 }]);
    assert!(graphs[0].edges.is_empty());
    assert!(traverse_graph(&graphs[0]).is_empty());
}

#[test]
fn empty_skeleton_gives_no_graphs() {
    assert!(build_stroke_graphs(&grid(4, 4, &[]), 4, 4).is_empty());
    assert!(build_stroke_graphs(&[], 0, 0).is_empty());
}

fn edge(from: usize, to: usize) -> GraphEdge {
    GraphEdge { from, to, pixels: vec![(0, 0), (1, 1)] }
}

fn nodes(n: usize) -> Vec<GraphNode> {
    (0..n).map(|i| GraphNode { x: i as i32, y: 0 }).collect()
}

#[test]
fn traverse_empty_graph_is_empty() {
    let g = StrokeGraph { nodes: nodes(3), edges: vec![] };
    assert!(traverse_graph(&g).is_empty());
}

#[test]
fn traverse_triangle_is_one_closed_circuit() {
    let g = StrokeGraph { nodes: nodes(3), edges: vec![edge(0, 1), edge(1, 2), edge(0, 2)] };
    let paths = traverse_graph(&g);
    assert_eq!(paths, vec![vec![(0, 1, 0, false), (1, 2, 1, false), (2, 0, 2, true)]]);
}

#[test]
fn traverse_path_with_two_odd_nodes_runs_between_them() {
    let g = StrokeGraph { nodes: nodes(4), edges: vec![edge(0, 1), edge(1, 2), edge(2, 3)] };
    let paths = traverse_graph(&g);
    assert_eq!(paths.len(), 1);
    let p = &paths[0];
    assert_eq!(p.len(), 3);
    let ends = (p[0].0, p[p.len() - 1].1);
    assert!(ends == (0, 3) || ends == (3, 0));
    for w in p.windows(2) {
        assert_eq!(w[0].1, w[1].0);
    }
}

#[test]
fn traverse_splices_sub_circuits() {
    // Two triangles sharing node 0: every node has even degree.
    let g = StrokeGraph {
        nodes: nodes(5),
        edges: vec![edge(0, 1), edge(1, 2), edge(0, 2), edge(0, 3), edge(3, 4), edge(0, 4)],
    };
    let paths = traverse_graph(&g);
    assert_eq!(paths.len(), 1);
    let p = &paths[0];
    assert_eq!(p.len(), 6);
    let mut used: Vec<usize> = p.iter().map(|s| s.2).collect();
    used.sort();
    assert_eq!(used, vec![0, 1, 2, 3, 4, 5]);
    assert_eq!(p[0].0, p[p.len() - 1].1);
    for w in p.windows(2) {
        assert_eq!(w[0].1, w[1].0);
    }
}

#[test]
fn traverse_only_reaches_the_start_component_of_an_even_graph() {
    let g = StrokeGraph { nodes: nodes(2), edges: vec![edge(0, 0), edge(1, 1)] };
    assert_eq!(traverse_graph(&g), vec![vec![(0, 0, 0, false)]]);
}

#[test]
fn traverse_with_four_odd_nodes_walks_every_edge_once() {
    // A star: centre 0 with four leaves.
    let g = StrokeGraph { nodes: nodes(5), edges: vec![edge(0, 1), edge(0, 2), edge(0, 3), edge(0, 4)] };
    let paths = traverse_graph(&g);
    assert_eq!(paths, vec![vec![(1, 0, 0, true), (0, 2, 1, false)], vec![(3, 0, 2, true), (0, 4, 3, false)]]);
}

#[test]
fn chain_follows_edges_in_walking_order_without_repeats() {
    let g = StrokeGraph {
        nodes: vec![GraphNode { x: 0, y: 0 }, GraphNode { x: 2, y: 0 }, GraphNode { x: 2, y: 2 }],
        edges: vec![
            GraphEdge { from: 0, to: 1, pixels: vec![(0, 0), (1, 0), (2, 0)] },
            GraphEdge { from: 2, to: 1, pixels: vec![(2, 2), (2, 1), (2, 0)] },
        ],
    };
    let chain = chain_pixels(&g, &[(0, 1, 0, false), (1, 2, 1, true)]);
    assert_eq!(chain, vec![(0, 0), (1, 0), (2, 0), (2, 1), (2, 2)]);
    let back = chain_pixels(&g, &[(2, 1, 1, false), (1, 0, 0, true)]);
    assert_eq!(back, vec![(2, 2), (2, 1), (2, 0), (1, 0), (0, 0)]);
    assert!(chain_pixels(&g, &[]).is_empty());
}

#[test]
fn chain_of_a_closed_loop_ends_where_it_starts() {
    let g = StrokeGraph {
        nodes: vec![GraphNode { x: 1, y: 1 }],
        edges: vec![GraphEdge { from: 0, to: 0, pixels: vec![(1, 1), (2, 1), (2, 2), (1, 2), (1, 1)] }],
    };
    let chain = chain_pixels(&g, &[(0, 0, 0, false)]);
    assert_eq!(chain.first(), chain.last());
    assert_eq!(chain.len(), 5);
}

#[test]
fn graphs_sort_by_first_node_with_empty_graphs_first() {
    let at = |x: i32, y: i32| StrokeGraph { nodes: vec![GraphNode { x, y }], edges: vec![] };
    let empty = StrokeGraph { nodes: vec![], edges: vec![] };
    let sorted = sort_graphs(vec![at(5, 2), at(1, 0), empty, at(0, 2)]);
    let keys: Vec<Option<(i32, i32)>> = sorted.iter().map(|g| g.nodes.first().map(|n| (n.x, n.y))).collect();
    assert_eq!(keys, vec![None, Some((1, 0)), Some((0, 2)), Some((5, 2))]);
}

#[test]
fn small_components_lose_their_skeleton() {
    // A lone pixel at (0, 0) and a three-pixel diagonal run elsewhere.
    let mask = grid(5, 5, &[(0, 0), (2, 2), (3, 3), (4, 4)]);
    let mut skeleton = mask.clone();
    clear_small_components(&mut skeleton, &mask, 5, 5, 2);
    assert_eq!(skeleton, grid(5, 5, &[(2, 2), (3, 3), (4, 4)]));

    let mut all = mask.clone();
    clear_small_components(&mut all, &mask, 5, 5, 4);
    assert!(all.iter().all(|b| !*b));

    let mut kept = mask.clone();
    clear_small_components(&mut kept, &mask, 5, 5, 0);
    assert_eq!(kept, mask);
}

#[test]
fn skeleton_outside_the_ink_is_kept() {
    let mask = grid(3, 1, &[(0, 0)]);
    let mut skeleton = grid(3, 1, &[(0, 0), (2, 0)]);
    clear_small_components(&mut skeleton, &mask, 3, 1, 5);
    assert_eq!(skeleton, grid(3, 1, &[(2, 0)]));
}

fn junction_graph() -> StrokeGraph {
    StrokeGraph {
        nodes: vec![
            GraphNode { x: 5, y: 5 },
            GraphNode { x: 5, y: 15 },
            GraphNode { x: 10, y: 10 },
            GraphNode { x: 12, y: 10 },
            GraphNode { x: 15, y: 5 },
            GraphNode { x: 15, y: 15 },
        ],
        edges: vec![
            GraphEdge { from: 0, to: 2, pixels: vec![(5, 5), (7, 7), (10, 10)] },
            GraphEdge { from: 1, to: 2, pixels: vec![(5, 15), (7, 13), (10, 10)] },
            GraphEdge { from: 2, to: 3, pixels: vec![(10, 10), (11, 10), (12, 10)] },
            GraphEdge { from: 3, to: 4, pixels: vec![(12, 10), (13, 7), (15, 5)] },
            GraphEdge { from: 3, to: 5, pixels: vec![(12, 10), (13, 13), (15, 15)] },
        ],
    }
}

#[test]
fn merging_two_junctions_puts_one_node_at_their_centroid() {
    let merged = merge_junctions(junction_graph(), &[false, false, true, false, false]);
    let nodes: Vec<(i32, i32)> = merged.nodes.iter().map(|n| (n.x, n.y)).collect();
    assert_eq!(nodes, vec![(5, 5), (15, 5), (11, 10), (5, 15), (15, 15)]);
    let edges: Vec<(usize, usize, Vec<(i32, i32)>)> =
        merged.edges.iter().map(|e| (e.from, e.to, e.pixels.clone())).collect();
    assert_eq!(
        edges,
        vec![
            (0, 2, vec![(5, 5), (7, 7), (10, 10), (11, 10)]),
            (2, 3, vec![(11, 10), (10, 10), (7, 13), (5, 15)]),
            (1, 2, vec![(15, 5), (13, 7), (12, 10), (11, 10)]),
            (2, 4, vec![(11, 10), (12, 10), (13, 13), (15, 15)]),
        ]
    );
    for e in &merged.edges {
        assert!(e.from <= e.to);
        assert_eq!(*e.pixels.first().unwrap(), (merged.nodes[e.from].x, merged.nodes[e.from].y));
        assert_eq!(*e.pixels.last().unwrap(), (merged.nodes[e.to].x, merged.nodes[e.to].y));
    }
}

#[test]
fn nothing_marked_leaves_the_graph_alone() {
    let g = junction_graph();
    let merged = merge_junctions(junction_graph(), &[false; 5]);
    let a: Vec<(i32, i32)> = g.nodes.iter().map(|n| (n.x, n.y)).collect();
    let b: Vec<(i32, i32)> = merged.nodes.iter().map(|n| (n.x, n.y)).collect();
    assert_eq!(a, b);
    assert_eq!(merged.edges.len(), 5);
    assert_eq!(merged.edges[1].pixels, g.edges[1].pixels);
}

#[test]
fn a_parallel_edge_inside_a_merged_group_becomes_a_loop() {
    let g = StrokeGraph {
        nodes: vec![GraphNode { x: 0, y: 0 }, GraphNode { x: 3, y: 0 }],
        edges: vec![
            GraphEdge { from: 0, to: 1, pixels: vec![(0, 0), (1, 0), (2, 0), (3, 0)] },
            GraphEdge { from: 0, to: 1, pixels: vec![(0, 0), (1, 1), (2, 1), (3, 0)] },
        ],
    };
    let merged = merge_junctions(g, &[true, false]);
    assert_eq!(merged.nodes.len(), 1);
    assert_eq!((merged.nodes[0].x, merged.nodes[0].y), (2, 0));
    assert_eq!(merged.edges.len(), 1);
    assert_eq!((merged.edges[0].from, merged.edges[0].to), (0, 0));
    assert_eq!(merged.edges[0].pixels, vec![(2, 0), (0, 0), (1, 1), (2, 1), (3, 0), (2, 0)]);
}

#[test]
fn tie_labels_name_the_least_node_of_each_group() {
    let g = junction_graph();
    assert_eq!(tie_labels(&g, &[false, true, true, false, false]), vec![0, 1, 1, 1, 4, 5]);
    assert_eq!(tie_labels(&g, &[true, true, true, true, true]), vec![0, 0, 0, 0, 0, 0]);
    assert_eq!(tie_labels(&g, &[false; 5]), vec![0, 1, 2, 3, 4, 5]);
}

#[test]
fn three_pixel_line_traces_to_one_edge() {
    let g = build_stroke_graphs(&[true, true, true], 3, 1);
    assert_eq!(g.len(), 1);
    assert_eq!(g[0].nodes, vec![GraphNode { x: 0, y: 0 }, GraphNode { x: 2, y: 0 }]);
    assert_eq!(g[0].edges.len(), 1);
    assert_eq!((g[0].edges[0].from, g[0].edges[0].to), (0, 1));
    assert_eq!(g[0].edges[0].pixels, vec![(0, 0), (1, 0), (2, 0)]);
}

#[test]
fn two_by_two_ring_is_one_loop_edge() {
    let g = build_stroke_graphs(&[true, true, true, true], 2, 2);
    assert_eq!(g.len(), 1);
    assert_eq!(g[0].nodes, vec![GraphNode { x: 0, y: 0 }]);
    assert_eq!(g[0].edges.len(), 1);
    assert_eq!((g[0].edges[0].from, g[0].edges[0].to), (0, 0));
    assert_eq!(g[0].edges[0].pixels, vec![(0, 0), (1, 0), (1, 1), (0, 1), (0, 0)]);
}

#[test]
fn only_the_edge_between_two_junctions_is_a_merge_candidate() {
    assert_eq!(junction_edges(&junction_graph()), vec![false, false, true, false, false]);
}

#[test]
fn a_loop_counts_twice_towards_a_junction() {
    // Node 0 has a loop and one more edge: three edge ends.
    let g = StrokeGraph { nodes: nodes(3), edges: vec![edge(0, 0), edge(0, 1), edge(1, 2)] };
    assert_eq!(junction_edges(&g), vec![false, false, false]);
    let g2 = StrokeGraph { nodes: nodes(2), edges: vec![edge(0, 0), edge(0, 1), edge(1, 1), edge(1, 0)] };
    assert_eq!(junction_edges(&g2), vec![false, true, false, true]);
}

#[test]
fn merged_edges_stay_anchored_on_their_nodes() {
    let g = junction_graph();
    let merged = merge_junctions(g, &[false, false, true, false, false]);
    assert!(merged.nodes.len() <= 6 && merged.edges.len() <= 5);
    for e in &merged.edges {
        assert!(e.from <= e.to && e.to < merged.nodes.len());
        let a = &merged.nodes[e.from];
        let b = &merged.nodes[e.to];
        assert_eq!(e.pixels[0], (a.x, a.y));
        assert_eq!(*e.pixels.last().unwrap(), (b.x, b.y));
    }
}

#[test]
fn tied_graphs_keep_their_order_when_sorted() {
    let a = StrokeGraph { nodes: vec![GraphNode { x: 3, y: 1 }], edges: vec![] };
    let b = StrokeGraph { nodes: vec![GraphNode { x: 3, y: 1 }, GraphNode { x: 4, y: 4 }], edges: vec![] };
    let c = StrokeGraph { nodes: vec![GraphNode { x: 0, y: 0 }], edges: vec![] };
    let sorted = sort_graphs(vec![a, b, c]);
    let sizes: Vec<usize> = sorted.iter().map(|g| g.nodes.len()).collect();
    assert_eq!(sizes, vec![1, 1, 2]);
    assert_eq!(sorted[0].nodes[0], GraphNode { x: 0, y: 0 });
    assert_eq!(sorted[1].nodes[0], GraphNode { x: 3, y: 1 });
}

#[test]
fn one_graph_per_component_in_order_with_loops_anchored_first() {
    // A 3x3 ring (an "O") on the right, a short line on the left lower down.
    let skel = grid(
        9,
        5,
        &[(5, 0), (6, 0), (7, 0), (5, 1), (7, 1), (5, 2), (6, 2), (7, 2), (0, 4), (1, 4), (2, 4)],
    );
    let graphs = build_stroke_graphs(&skel, 9, 5);
    assert_eq!(graphs.len(), 2);
    assert_eq!(graphs[0].nodes, vec![GraphNode { x: 5, y: 0 }]);
    assert_eq!(graphs[0].edges.len(), 1);
    assert_eq!(graphs[0].edges[0].pixels.len(), 9);
    assert_eq!(graphs[1].nodes, vec![GraphNode { x: 0, y: 4 }, GraphNode { x: 2, y: 4 }]);
}
