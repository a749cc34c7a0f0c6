use wasm_split_cli::graph::{list_contains, DepGraph};
use wasm_split_cli::layout::OutputModuleInfo;
use wasm_split_cli::nodes::{DepNode, NodeMap, NodeSet};
use wasm_split_cli::reach::find_reachable_deps;

fn f(i: usize) -> DepNode {
    DepNode::Function(i)
}

fn d(i: usize) -> DepNode {
    DepNode::DataSymbol(i)
}

fn graph(funcs: usize, data: usize, edges: &[(DepNode, DepNode)]) -> DepGraph {
    let mut g = DepGraph::new(funcs, data);
    for (from, to) in edges {
        g.add_edge(*from, *to);
    }
    g
}

fn set(funcs: usize, data: usize, nodes: &[DepNode]) -> NodeSet {
    let mut s = NodeSet::new(funcs, data);
    for n in nodes {
        s.insert(*n);
    }
    s
}

fn members(s: &NodeSet, funcs: usize, data: usize) -> Vec<DepNode> {
    let mut out = Vec::new();
    for i in 0..funcs {
        if s.contains(f(i)) {
            out.push(f(i));
        }
    }
    for i in 0..data {
        if s.contains(d(i)) {
            out.push(d(i));
        }
    }
    out
}

#[test]
fn edges_are_kept_once_in_order() {
    let mut g = DepGraph::new(3, 2);
    assert_eq!(g.func_count(), 3);
    assert_eq!(g.data_count(), 2);
    g.add_edge(f(0), f(2));
    g.add_edge(f(0), d(1));
    g.add_edge(f(0), f(2));
    g.add_edge(d(1), f(0));
    assert_eq!(g.get(f(0)), Some(&vec![f(2), d(1)]));
    assert_eq!(g.get(d(1)), Some(&vec![f(0)]));
    assert_eq!(g.get(f(1)), Some(&Vec::new()));
    assert_eq!(g.get(f(3)), None);
    assert_eq!(g.get(d(2)), None);
    assert!(g.has_edge(f(0), d(1)));
    assert!(!g.has_edge(d(1), f(2)));
    assert!(!g.has_edge(f(7), f(0)));
    assert!(g.has_node(f(2)) && g.has_node(d(1)));
    assert!(!g.has_node(f(3)) && !g.has_node(d(2)));
    // An edge to or from a node that is not there is not added.
    assert!(!g.add_edge(f(0), f(3)));
    assert!(!g.add_edge(d(2), f(0)));
    assert!(g.add_edge(f(1), f(1)));
    assert_eq!(g.get(f(0)), Some(&vec![f(2), d(1)]));
    assert_eq!(g.get(f(1)), Some(&vec![f(1)]));
    assert!(list_contains(&vec![f(1), d(1)], d(1)));
    assert!(!list_contains(&vec![f(1), d(1)], f(0)));
}

#[test]
fn node_map_keeps_the_last_value() {
    let mut m: NodeMap<usize> = NodeMap::new(2, 1);
    assert_eq!(m.func_count(), 2);
    assert_eq!(m.data_count(), 1);
    assert_eq!(m.get(f(1)), None);
    m.insert(f(1), 4);
    m.insert(d(0), 5);
    m.insert(f(1), 6);
    assert_eq!(m.get(f(1)), Some(6));
    assert_eq!(m.get(d(0)), Some(5));
    assert_eq!(m.get(f(0)), None);
    assert_eq!(m.get(f(2)), None);
    assert_eq!(m.get(d(1)), None);
}

#[test]
fn reaches_through_cycles_and_data() {
    let g = graph(
        6,
        2,
        &[(f(0), f(1)), (f(1), f(2)), (f(2), f(0)), (f(2), d(0)), (d(0), f(3)), (f(4), f(5))],
    );
    let r = find_reachable_deps(&g, &set(6, 2, &[f(0)]), &NodeSet::new(6, 2));
    assert_eq!(members(&r.reachable, 6, 2), vec![f(0), f(1), f(2), f(3), d(0)]);
    assert_eq!(r.parents.get(f(0)), None);
    assert_eq!(r.parents.get(f(1)), Some(f(0)));
    assert_eq!(r.parents.get(f(2)), Some(f(1)));
    assert_eq!(r.parents.get(d(0)), Some(f(2)));
    assert_eq!(r.parents.get(f(3)), Some(d(0)));
    assert_eq!(r.parents.get(f(4)), None);
}

#[test]
fn excluded_nodes_are_not_stepped_on() {
    let g = graph(5, 0, &[(f(0), f(1)), (f(1), f(2)), (f(0), f(3)), (f(3), f(4))]);
    let r = find_reachable_deps(&g, &set(5, 0, &[f(0)]), &set(5, 0, &[f(1)]));
    assert_eq!(members(&r.reachable, 5, 0), vec![f(0), f(3), f(4)]);
    // A root that is excluded is not reached, and nothing is reached from it.
    let r = find_reachable_deps(&g, &set(5, 0, &[f(1)]), &set(5, 0, &[f(1)]));
    assert!(members(&r.reachable, 5, 0).is_empty());
    let r = find_reachable_deps(&g, &set(5, 0, &[f(1), f(3)]), &set(5, 0, &[f(1)]));
    assert_eq!(members(&r.reachable, 5, 0), vec![f(3), f(4)]);
    assert_eq!(r.parents.get(f(1)), None);
}

#[test]
fn no_roots_reach_nothing() {
    let g = graph(3, 1, &[(f(0), f(1))]);
    let r = find_reachable_deps(&g, &NodeSet::new(3, 1), &NodeSet::new(3, 1));
    assert!(members(&r.reachable, 3, 1).is_empty());
    let g = DepGraph::new(0, 0);
    let r = find_reachable_deps(&g, &NodeSet::new(0, 0), &NodeSet::new(0, 0));
    assert!(!r.reachable.contains(f(0)));
}

#[test]
fn the_first_finder_is_the_parent() {
    // 3 is a successor of both 1 and 2; 1 is expanded first.
    let g = graph(4, 0, &[(f(0), f(1)), (f(0), f(2)), (f(2), f(3)), (f(1), f(3))]);
    let r = find_reachable_deps(&g, &set(4, 0, &[f(0)]), &NodeSet::new(4, 0));
    assert_eq!(r.parents.get(f(3)), Some(f(1)));
    // A root has no parent, even where another root has an edge to it.
    let r = find_reachable_deps(&g, &set(4, 0, &[f(0), f(1)]), &NodeSet::new(4, 0));
    assert_eq!(r.parents.get(f(1)), None);
}

#[test]
fn parents_are_one_step_nearer_to_the_roots() {
    // 4 is two steps from the root through 1, and three through 2 and 3.
    let g = graph(5, 0, &[(f(0), f(2)), (f(2), f(3)), (f(3), f(4)), (f(0), f(1)), (f(1), f(4))]);
    let r = find_reachable_deps(&g, &set(5, 0, &[f(0)]), &NodeSet::new(5, 0));
    assert_eq!(r.parents.get(f(4)), Some(f(1)));
    assert_eq!(r.parents.get(f(3)), Some(f(2)));
    assert_eq!(r.parents.get(f(2)), Some(f(0)));
}

#[test]
fn output_module_from_a_traversal() {
    let g = graph(3, 1, &[(f(0), f(1)), (f(1), d(0))]);
    let r = find_reachable_deps(&g, &set(3, 1, &[f(0)]), &NodeSet::new(3, 1));
    let out = OutputModuleInfo::from(r);
    assert_eq!(members(&out.included_symbols, 3, 1), vec![f(0), f(1), d(0)]);
    assert_eq!(out.parents.get(d(0)), Some(f(1)));
    assert!(out.shared_imports.is_empty());
    assert!(out.split_points.is_empty());
}
