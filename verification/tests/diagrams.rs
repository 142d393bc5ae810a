use diagen::builder::build_graphs;
use diagen::options::DiagenOptions;
use diagen::pipeline::plan_diagrams;
use diagen::render::{global_items, render_dot};
use diagen::subgraph::{derive_subgraph, DotItem};

fn strings(texts: &[&str]) -> Vec<String> {
    texts.iter().map(|t| t.to_string()).collect()
}

fn node_count(items: &[DotItem]) -> usize {
    items.iter().filter(|i| matches!(i, DotItem::Node(_))).count()
}

fn edge_count(items: &[DotItem]) -> usize {
    items.iter().filter(|i| matches!(i, DotItem::Edge(_, _))).count()
}

#[test]
fn options_default_is_all_off() {
    let o = DiagenOptions::default();
    assert!(!o.generate_dot);
    assert!(!o.generate_pdf);
    assert!(!o.generate_svg);
    assert!(!o.generate_global_graph);
}

#[test]
fn forward_subgraph_round_trip() {
    let contents = strings(&["module A {\n    use 0x1::B;\n}\n", "module B {\n}\n"]);
    let g = build_graphs(&contents);
    let items = derive_subgraph(&g.forward, &"A".to_string(), true);
    let dot = render_dot(&items);
    assert_eq!(dot, "digraph G {\n    A\n    A -> B\n    B\n}\n");
}

#[test]
fn backward_subgraph_keeps_forward_orientation() {
    let contents = strings(&["module A {\n    use 0x1::B;\n}\n", "module B {\n}\n"]);
    let g = build_graphs(&contents);
    // Traversal is rooted at B over the inverse graph, but the edge is still
    // rendered as A -> B.
    let items = derive_subgraph(&g.inverse, &"B".to_string(), false);
    let dot = render_dot(&items);
    assert_eq!(dot, "digraph G {\n    B\n    A -> B\n    A\n}\n");
}

#[test]
fn backward_subgraph_of_leaf_has_no_edges() {
    let contents = strings(&["module A {\n    use 0x1::B;\n}\n", "module B {\n}\n"]);
    let g = build_graphs(&contents);
    let items = derive_subgraph(&g.inverse, &"A".to_string(), false);
    assert_eq!(node_count(&items), 1);
    assert_eq!(edge_count(&items), 0);
    assert_eq!(render_dot(&items), "digraph G {\n    A\n}\n");
}

#[test]
fn module_without_dependencies_gives_single_node() {
    let contents = strings(&["module M {\n}\n"]);
    let g = build_graphs(&contents);
    let items = derive_subgraph(&g.forward, &"M".to_string(), true);
    assert_eq!(node_count(&items), 1);
    assert_eq!(edge_count(&items), 0);
    match &items[0] {
        DotItem::Node(n) => assert_eq!(n, "M"),
        DotItem::Edge(_, _) => panic!("expected a node line"),
    }
}

#[test]
fn cycle_terminates_with_two_nodes_and_two_edges() {
    let contents = strings(&["module A {\n    use 0x1::B;\n}\n", "module B {\n    use 0x1::A;\n}\n"]);
    let g = build_graphs(&contents);
    let items = derive_subgraph(&g.forward, &"A".to_string(), true);
    assert_eq!(node_count(&items), 2);
    assert_eq!(edge_count(&items), 2);
    assert_eq!(
        render_dot(&items),
        "digraph G {\n    A\n    A -> B\n    B\n    B -> A\n}\n"
    );
}

#[test]
fn undeclared_sink_is_traversed_with_empty_adjacency() {
    let contents = strings(&["module A {\n    use 0x1::X;\n}\n"]);
    let g = build_graphs(&contents);
    let items = derive_subgraph(&g.forward, &"A".to_string(), true);
    assert_eq!(render_dot(&items), "digraph G {\n    A\n    A -> X\n    X\n}\n");
}

#[test]
fn rendering_twice_is_byte_identical() {
    let contents = strings(&["module A {\n    use 0x1::B;\n}\n", "module B {\n}\n"]);
    let g = build_graphs(&contents);
    let items = derive_subgraph(&g.forward, &"A".to_string(), true);
    assert_eq!(render_dot(&items), render_dot(&items));
}

#[test]
fn derivation_twice_gives_identical_order() {
    let contents = strings(&[
        "module A {\n    use 0x1::B;\n    use 0x1::C;\n}\n",
        "module B {\n    use 0x1::C;\n}\n",
        "module C {\n}\n",
    ]);
    let g = build_graphs(&contents);
    let first = render_dot(&derive_subgraph(&g.forward, &"A".to_string(), true));
    let second = render_dot(&derive_subgraph(&g.forward, &"A".to_string(), true));
    assert_eq!(first, second);
}

#[test]
fn render_of_no_lines_is_empty_digraph() {
    let items: Vec<DotItem> = Vec::new();
    assert_eq!(render_dot(&items), "digraph G {\n}\n");
}

#[test]
fn global_diagram_lists_entries_in_sorted_order() {
    let contents = strings(&["module B {\n}\n", "module A {\n    use 0x1::B;\n}\n"]);
    let g = build_graphs(&contents);
    let items = global_items(&g.forward);
    assert_eq!(render_dot(&items), "digraph G {\n    A\n    A -> B\n    B\n}\n");
}

#[test]
fn plan_produces_all_requested_diagrams_in_order() {
    let contents = strings(&["module A {\n    use 0x1::B;\n}\n", "module B {\n}\n"]);
    let mut options = DiagenOptions::default();
    options.generate_global_graph = true;
    let diagrams = plan_diagrams(&contents, &options);
    let stems: Vec<String> = diagrams.iter().map(|d| d.file_stem.clone()).collect();
    assert_eq!(
        stems,
        vec![
            "(EntireGraph)".to_string(),
            "A_forward".to_string(),
            "B_forward".to_string(),
            "A_backward".to_string(),
            "B_backward".to_string(),
        ]
    );
    assert_eq!(diagrams[0].dot, "digraph G {\n    A\n    A -> B\n    B\n}\n");
    assert_eq!(diagrams[1].dot, "digraph G {\n    A\n    A -> B\n    B\n}\n");
    assert_eq!(diagrams[4].dot, "digraph G {\n    B\n    A -> B\n    A\n}\n");
}

#[test]
fn plan_without_global_graph_starts_with_forward_diagrams() {
    let contents = strings(&["module A {\n}\n"]);
    let options = DiagenOptions::default();
    let diagrams = plan_diagrams(&contents, &options);
    let stems: Vec<String> = diagrams.iter().map(|d| d.file_stem.clone()).collect();
    assert_eq!(stems, vec!["A_forward".to_string(), "A_backward".to_string()]);
}
