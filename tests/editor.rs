use graphs::editor::{
    click_node, copy_nodes, cut_nodes, delete_nodes, link_selected, paste_nodes, select_all,
    select_nodes, select_path_to,
    GraphDisplayer, GraphInspector, GraphTools,
};
use graphs::node::{Node, Position};

fn node(x: u32) -> Node {
    Node::at_pos(Position { x_bits: x, y_bits: x })
}

/// A displayer whose first graph holds `n` nodes linked in a chain.
fn chain(n: usize) -> (GraphDisplayer, Vec<u128>) {
    let mut d = GraphDisplayer::default();
    let mut ids = Vec::new();
    for i in 0..n {
        ids.push(d.graphs[0].insert(node(i as u32)));
    }
    for i in 1..n {
        d.graphs[0].link(ids[i - 1], ids[i], i as u32);
    }
    (d, ids)
}

#[test]
fn defaults() {
    let d = GraphDisplayer::default();
    assert_eq!(d.graphs.len(), 1);
    assert_eq!(d.selected_graph, 0);
    assert_eq!(d.tool, GraphTools::Look);
    assert_eq!(GraphTools::default(), GraphTools::Look);
    assert_eq!(d.inspector.message, ":3");
    let i = GraphInspector { message: "m".to_string() };
    assert_eq!(i.message, "m");
}

#[test]
fn delete_removes_selection_and_edges() {
    let (mut d, ids) = chain(3);
    d.selected_nodes = vec![ids[1]];
    delete_nodes(&mut d);
    assert!(d.selected_nodes.is_empty());
    assert_eq!(d.graphs[0].node_count(), 2);
    assert_eq!(d.graphs[0].edge_count(), 0);
}

#[test]
fn link_selected_links_all_pairs() {
    let (mut d, ids) = chain(3);
    d.selected_nodes = vec![ids[0], ids[2]];
    link_selected(&mut d);
    assert!(d.graphs[0].linked(ids[0], ids[2]));
    assert!(d.graphs[0].linked(ids[2], ids[0]));
    assert!(d.graphs[0].linked(ids[0], ids[0]));
    assert!(d.graphs[0].linked(ids[2], ids[2]));
    assert_eq!(d.graphs[0].edge_count(), 2 + 4);
}

#[test]
fn cut_then_paste_restores_subgraph() {
    let (mut d, ids) = chain(4);
    d.selected_nodes = vec![ids[1], ids[2]];
    cut_nodes(&mut d);
    assert!(d.selected_nodes.is_empty());
    assert_eq!(d.graphs[0].node_count(), 2);
    assert_eq!(d.graphs[0].edge_count(), 0);
    assert_eq!(d.temporary.node_count(), 2);
    assert_eq!(d.temporary.edge_count(), 1);
    assert!(d.temporary.linked(ids[1], ids[2]));
    paste_nodes(&mut d);
    assert_eq!(d.temporary.node_count(), 0);
    assert_eq!(d.temporary.edge_count(), 0);
    assert_eq!(d.graphs[0].node_count(), 4);
    assert_eq!(d.graphs[0].edge_count(), 1);
    assert!(d.graphs[0].linked(ids[1], ids[2]));
    let mut sel = d.selected_nodes.clone();
    sel.sort();
    let mut want = vec![ids[1], ids[2]];
    want.sort();
    assert_eq!(sel, want);
}

#[test]
fn copy_gives_fresh_ids_and_keeps_inner_edges() {
    let (mut d, ids) = chain(3);
    d.selected_nodes = vec![ids[0], ids[1]];
    copy_nodes(&mut d);
    assert_eq!(d.graphs[0].node_count(), 3);
    assert_eq!(d.temporary.node_count(), 2);
    assert_eq!(d.temporary.edge_count(), 1);
    for (id, _) in &d.temporary.nodes {
        assert!(!ids.contains(id));
        assert!(*id > ids[2]);
    }
    let e = d.temporary.edges[0];
    assert_eq!(e.1, 1);
    assert_eq!(d.temporary.get(e.0 .0).unwrap().pos.x_bits, 0);
    assert_eq!(d.temporary.get(e.0 .1).unwrap().pos.x_bits, 1);
    paste_nodes(&mut d);
    assert_eq!(d.graphs[0].node_count(), 5);
    assert_eq!(d.graphs[0].edge_count(), 3);
}

#[test]
fn empty_selection_changes_nothing() {
    let (mut d, _) = chain(2);
    copy_nodes(&mut d);
    cut_nodes(&mut d);
    assert_eq!(d.temporary.node_count(), 0);
    assert_eq!(d.graphs[0].node_count(), 2);
}

#[test]
fn select_path_picks_cheapest_start() {
    let (mut d, ids) = chain(4);
    // chain weights: 0->1 (1), 1->2 (2), 2->3 (3); add a costly shortcut.
    d.graphs[0].link(ids[0], ids[3], 100);
    d.selected_nodes = vec![ids[0], ids[1]];
    select_path_to(&mut d, ids[3], false);
    let mut sel = d.selected_nodes.clone();
    sel.sort();
    let mut want = vec![ids[1], ids[2], ids[3]];
    want.sort();
    assert_eq!(sel, want);
}

#[test]
fn select_path_keeps_others_and_handles_no_path() {
    let (mut d, ids) = chain(3);
    d.selected_nodes = vec![ids[2]];
    select_path_to(&mut d, ids[0], true);
    assert_eq!(d.selected_nodes, vec![ids[2]]);
    select_path_to(&mut d, ids[0], false);
    assert!(d.selected_nodes.is_empty());
    d.selected_nodes = vec![ids[0], ids[2]];
    select_path_to(&mut d, ids[1], true);
    let mut sel = d.selected_nodes.clone();
    sel.sort();
    let mut want = ids.clone();
    want.sort();
    assert_eq!(sel, want);
}

#[test]
fn select_all_and_toggle() {
    let (mut d, ids) = chain(3);
    select_all(&mut d, false);
    assert_eq!(d.selected_nodes.len(), 3);
    d.selected_nodes = vec![ids[0]];
    select_all(&mut d, true);
    let mut sel = d.selected_nodes.clone();
    sel.sort();
    let mut want = vec![ids[1], ids[2]];
    want.sort();
    assert_eq!(sel, want);
}

#[test]
fn click_selects_toggles_and_clears() {
    let (mut d, ids) = chain(3);
    click_node(&mut d, ids[0], false);
    assert_eq!(d.selected_nodes, vec![ids[0]]);
    click_node(&mut d, ids[1], true);
    assert_eq!(d.selected_nodes.len(), 2);
    click_node(&mut d, ids[0], true);
    assert_eq!(d.selected_nodes, vec![ids[1]]);
    click_node(&mut d, ids[1], false);
    assert!(d.selected_nodes.is_empty());
    d.selected_nodes = vec![ids[0], ids[1]];
    click_node(&mut d, ids[1], false);
    assert_eq!(d.selected_nodes, vec![ids[1]]);
}

#[test]
fn rectangle_selection_adds_or_toggles() {
    let (mut d, ids) = chain(3);
    d.selected_nodes = vec![ids[0]];
    select_nodes(&mut d, &vec![ids[0], ids[1]], false);
    assert_eq!(d.selected_nodes.len(), 2);
    select_nodes(&mut d, &vec![ids[0], ids[2]], true);
    let mut sel = d.selected_nodes.clone();
    sel.sort();
    let mut want = vec![ids[1], ids[2]];
    want.sort();
    assert_eq!(sel, want);
}
