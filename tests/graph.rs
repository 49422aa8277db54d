use graphs::node::{Color, Node, Position};
use graphs::oriented::OrientedGraph;

fn at(x: u32) -> Node {
    Node::at_pos(Position { x_bits: x, y_bits: 0 })
}

fn sample(n: usize) -> (OrientedGraph<u64>, Vec<u128>) {
    let mut g = OrientedGraph::<u64>::empty();
    let mut ids = Vec::new();
    for i in 0..n {
        ids.push(g.insert(at(i as u32)));
    }
    (g, ids)
}

#[test]
fn empty_graph_has_nothing() {
    let g = OrientedGraph::<u64>::empty();
    assert_eq!(g.node_count(), 0);
    assert_eq!(g.edge_count(), 0);
}

#[test]
fn inserted_ids_are_distinct_across_clear() {
    let mut g = OrientedGraph::<u64>::empty();
    let mut seen = Vec::new();
    for round in 0..3 {
        for i in 0..20 {
            let id = g.insert(at(i + round));
            assert!(!seen.contains(&id));
            seen.push(id);
        }
        g.clear();
        assert_eq!(g.node_count(), 0);
    }
    assert_eq!(seen.len(), 60);
}

#[test]
fn insert_stores_node() {
    let (g, ids) = sample(1);
    let n = g.get(ids[0]).unwrap();
    assert_eq!(n.name, "Nowode :3");
    assert_eq!(n.color, Color::gray());
    assert_eq!(n.pos, Position { x_bits: 0, y_bits: 0 });
}

#[test]
fn link_overwrites_weight() {
    let (mut g, ids) = sample(2);
    g.link(ids[0], ids[1], 5);
    g.link(ids[0], ids[1], 7);
    assert_eq!(g.edge_count(), 1);
    assert!(g.linked(ids[0], ids[1]));
    assert!(!g.linked(ids[1], ids[0]));
    assert_eq!(g.neighbors_out(ids[0]), vec![(ids[1], 7)]);
    assert_eq!(g.neighbors_in(ids[1]), vec![(ids[0], 7)]);
    assert!(g.neighbors_out(ids[1]).is_empty());
}

#[test]
fn self_loop_is_allowed() {
    let (mut g, ids) = sample(1);
    g.link(ids[0], ids[0], 3);
    assert!(g.linked(ids[0], ids[0]));
    assert_eq!(g.edge_count(), 1);
}

#[test]
fn remove_cascades_edges() {
    let (mut g, ids) = sample(3);
    g.link(ids[0], ids[1], 1);
    g.link(ids[1], ids[2], 1);
    g.link(ids[2], ids[0], 1);
    let removed = g.remove(ids[1]).unwrap();
    assert_eq!(removed.name, "Nowode :3");
    assert_eq!(g.node_count(), 2);
    assert_eq!(g.edge_count(), 1);
    assert!(g.linked(ids[2], ids[0]));
    assert!(!g.linked(ids[0], ids[1]));
}

#[test]
fn remove_missing_is_none() {
    let (mut g, ids) = sample(1);
    let gone = g.insert(at(9));
    assert!(g.remove(gone).is_some());
    assert!(g.remove(gone).is_none());
    assert_eq!(g.node_count(), 1);
    assert!(g.get(ids[0]).is_some());
}

#[test]
fn dangling_link_is_cleaned_by_remove() {
    let (mut g, ids) = sample(1);
    g.link(ids[0], 12345, 2);
    assert_eq!(g.edge_count(), 1);
    g.remove(12345);
    assert_eq!(g.edge_count(), 0);
}

#[test]
fn insert_then_remove_all_leaves_empty_graph() {
    let (mut g, ids) = sample(6);
    for i in 0..6 {
        g.link(ids[i], ids[(i + 1) % 6], i as u64);
        g.link(ids[i], ids[(i + 3) % 6], 1);
    }
    assert_eq!(g.edge_count(), 12);
    for id in &ids {
        assert!(g.remove(*id).is_some());
    }
    assert_eq!(g.node_count(), 0);
    assert_eq!(g.edge_count(), 0);
}

#[test]
fn insert_with_edges_merges_last_wins() {
    let (mut g, ids) = sample(2);
    g.link(ids[0], ids[1], 1);
    let id = g.insert_with_edges(at(5), vec![((ids[0], ids[1]), 4), ((ids[1], ids[0]), 2), ((ids[1], ids[0]), 3)]);
    assert_eq!(g.node_count(), 3);
    assert!(g.get(id).is_some());
    assert_eq!(g.edge_count(), 2);
    assert_eq!(g.neighbors_out(ids[0]), vec![(ids[1], 4)]);
    assert_eq!(g.neighbors_out(ids[1]), vec![(ids[0], 3)]);
}

#[test]
fn new_builds_from_entries() {
    let g = OrientedGraph::<u32>::new(
        vec![(1, at(1)), (2, at(2)), (1, at(3))],
        vec![((1, 2), 5), ((2, 1), 6), ((1, 2), 7)],
    );
    assert_eq!(g.node_count(), 2);
    assert_eq!(g.edge_count(), 2);
    assert_eq!(g.get(1).unwrap().pos.x_bits, 3);
    assert_eq!(g.neighbors_out(1), vec![(2, 7)]);
    let mut g = g;
    let id = g.insert(at(0));
    assert!(id > 2);
}

#[test]
fn dijkstra_prefers_cheaper_detour() {
    let (mut g, ids) = sample(4);
    let (a, b, c, d) = (ids[0], ids[1], ids[2], ids[3]);
    g.link(a, b, 1);
    g.link(b, c, 2);
    g.link(a, c, 10);
    g.link(c, d, 1);
    assert!(g.weights_fit());
    let (path, cost) = g.dijkstra(a, d).unwrap();
    assert_eq!(path, vec![a, b, c, d]);
    assert_eq!(cost, 4);
}

#[test]
fn dijkstra_without_path_is_none() {
    let (mut g, ids) = sample(2);
    assert!(g.dijkstra(ids[0], ids[1]).is_none());
    g.link(ids[1], ids[0], 1);
    assert!(g.dijkstra(ids[0], ids[1]).is_none());
    assert!(g.dijkstra(ids[1], ids[0]).is_some());
}

#[test]
fn dijkstra_start_is_end() {
    let (g, ids) = sample(1);
    let (path, cost) = g.dijkstra(ids[0], ids[0]).unwrap();
    assert_eq!(path, vec![ids[0]]);
    assert_eq!(cost, 0);
}

#[test]
fn dijkstra_zero_weights_and_ties() {
    let (mut g, ids) = sample(4);
    g.link(ids[0], ids[1], 0);
    g.link(ids[1], ids[2], 0);
    g.link(ids[2], ids[1], 0);
    g.link(ids[0], ids[2], 0);
    g.link(ids[2], ids[3], 5);
    let (path, cost) = g.dijkstra(ids[0], ids[3]).unwrap();
    assert_eq!(cost, 5);
    assert_eq!(path[0], ids[0]);
    assert_eq!(*path.last().unwrap(), ids[3]);
}

#[test]
fn weights_fit_detects_overflow() {
    let (mut g, ids) = sample(2);
    g.link(ids[0], ids[1], u64::MAX);
    assert!(g.weights_fit());
    g.link(ids[1], ids[0], 1);
    assert!(!g.weights_fit());
}

#[test]
fn color_classes_follow_in_neighbours() {
    let (mut g, ids) = sample(3);
    g.link(ids[0], ids[1], 1);
    g.link(ids[1], ids[2], 1);
    g.link(ids[0], ids[2], 1);
    assert_eq!(g.color_classes(&ids), vec![1, 2, 3]);
    let rev: Vec<u128> = ids.iter().rev().copied().collect();
    // In reverse order no node has an earlier in-neighbour.
    assert_eq!(g.color_classes(&rev), vec![1, 1, 1]);
}

#[test]
fn color_is_proper_along_order() {
    let (mut g, ids) = sample(5);
    for i in 0..5 {
        for j in 0..5 {
            if i < j && (i + j) % 2 == 1 {
                g.link(ids[i], ids[j], 1);
            }
        }
    }
    let classes = g.color_classes(&ids);
    for i in 0..5 {
        for j in (i + 1)..5 {
            if g.linked(ids[i], ids[j]) {
                assert_ne!(classes[i], classes[j]);
            }
        }
    }
}

#[test]
fn color_is_deterministic_and_paints_by_class() {
    let (mut g, ids) = sample(4);
    g.link(ids[0], ids[1], 1);
    g.link(ids[2], ids[3], 1);
    let first = g.color_classes(&ids);
    let max = g.color(ids.clone());
    assert_eq!(max, 2);
    assert_eq!(g.color_classes(&ids), first);
    assert_eq!(first, vec![1, 2, 1, 2]);
    let c = |i: usize| g.get(ids[i]).unwrap().color;
    assert_eq!(c(0), c(2));
    assert_eq!(c(1), c(3));
    assert_eq!(g.get(ids[0]).unwrap().name, "Nowode :3");
}

#[test]
fn color_of_empty_graph_is_one() {
    let mut g = OrientedGraph::<u64>::empty();
    assert_eq!(g.color(Vec::new()), 1);
}

#[test]
fn update_and_set_color() {
    let (mut g, ids) = sample(1);
    assert!(g.set_color(ids[0], Color::from_rgb(1, 2, 3)));
    assert_eq!(g.get(ids[0]).unwrap().color, Color { r: 1, g: 2, b: 3 });
    assert!(g.update(ids[0], Node::new(Position { x_bits: 7, y_bits: 8 }, Color::gray(), "x".to_string())));
    assert_eq!(g.get(ids[0]).unwrap().name, "x");
    assert!(!g.update(ids[0] + 1, at(0)));
}

#[test]
fn color_shuffled_paints_whole_graph() {
    let (mut g, ids) = sample(6);
    for i in 0..5 {
        g.link(ids[i], ids[i + 1], 1);
    }
    let max = g.color_shuffled();
    assert!(max >= 1 && max <= 2);
    assert_eq!(g.node_count(), 6);
    assert_eq!(g.edge_count(), 5);
    for id in &ids {
        assert_eq!(g.get(*id).unwrap().name, "Nowode :3");
    }
}

#[test]
fn color_reverse_order_can_share_class_on_edge() {
    // With in-neighbour colouring, an edge whose target is coloured first
    // may join two nodes of one class.
    let (mut g, ids) = sample(2);
    g.link(ids[0], ids[1], 1);
    assert_eq!(g.color_classes(&vec![ids[1], ids[0]]), vec![1, 1]);
    assert_eq!(g.color_classes(&vec![ids[0], ids[1]]), vec![1, 2]);
}

#[test]
fn dangling_link_to_max_id_does_not_block_insert() {
    let (mut g, ids) = sample(1);
    g.link(ids[0], u128::MAX, 1);
    let id = g.insert(at(1));
    assert!(id > ids[0]);
    assert!(id < u128::MAX);
    assert_eq!(g.node_count(), 2);
}

#[test]
fn inserted_ids_stay_below_cap() {
    let (_, ids) = sample(50);
    for w in ids.windows(2) {
        assert!(w[0] < w[1]);
    }
    assert!(ids.iter().all(|id| *id <= graphs::oriented::ID_CAP));
}

#[test]
fn paint_uses_palette_by_class() {
    let (mut g, ids) = sample(3);
    let palette = vec![Color::from_rgb(0, 0, 0), Color::from_rgb(1, 1, 1), Color::from_rgb(2, 2, 2)];
    g.paint(&ids, &vec![2, 1, 2], &palette);
    assert_eq!(g.get(ids[0]).unwrap().color, palette[2]);
    assert_eq!(g.get(ids[1]).unwrap().color, palette[1]);
    assert_eq!(g.get(ids[2]).unwrap().color, palette[2]);
}

#[test]
fn dijkstra_start_is_end_ignores_zero_cycle() {
    let (mut g, ids) = sample(2);
    g.link(ids[0], ids[1], 0);
    g.link(ids[1], ids[0], 0);
    let (path, cost) = g.dijkstra(ids[0], ids[0]).unwrap();
    assert_eq!(path, vec![ids[0]]);
    assert_eq!(cost, 0);
}
