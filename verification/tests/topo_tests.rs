use rk_utils::{add_edge, topo_sort, DepGraph, TopoSort};

fn ids(names: &[&str]) -> Vec<String> {
    names.iter().map(|name| name.to_string()).collect()
}

fn sorted(mut names: Vec<String>) -> Vec<String> {
    names.sort();
    names
}

fn position(order: &[String], name: &str) -> usize {
    order.iter().position(|id| id == name).unwrap()
}

#[test]
fn topolotical_sort_test() {
    let mut graph = DepGraph::new();

    graph.insert(
        "A".to_string(),
        vec!["B".to_string(), "C".to_string(), "D".to_string()],
    );
    graph.insert("B".to_string(), vec!["C".to_string(), "E".to_string()]);
    graph.insert("C".to_string(), vec!["D".to_string()]);
    graph.insert("E".to_string(), vec!["D".to_string()]);

    let ordering = topo_sort(&graph).unwrap();
    assert_eq!(ordering.len(), 5);
    assert_eq!(*ordering.first().unwrap(), "D".to_string());
    assert_eq!(*ordering.last().unwrap(), "A".to_string());
}

#[test]
fn sorts_a_chain() {
    let mut deps = DepGraph::new();
    deps.insert("B".to_string(), ids(&["A"]));
    deps.insert("C".to_string(), ids(&["B"]));

    let order = topo_sort(&deps).unwrap();
    assert_eq!(order, ids(&["A", "B", "C"]));
}

#[test]
fn reports_a_cycle() {
    let mut deps = DepGraph::new();
    deps.insert("A".to_string(), ids(&["B"]));
    deps.insert("B".to_string(), ids(&["A"]));

    let error = topo_sort(&deps).unwrap_err();
    assert_eq!(sorted(error.unresolved), ids(&["A", "B"]));
}

#[test]
fn sorts_the_empty_graph() {
    let deps = DepGraph::<String>::new();
    assert_eq!(topo_sort(&deps).unwrap(), Vec::<String>::new());
}

#[test]
fn reports_a_self_dependency() {
    let mut deps = DepGraph::new();
    deps.insert("A".to_string(), ids(&["A"]));
    deps.insert("B".to_string(), ids(&[]));

    let error = topo_sort(&deps).unwrap_err();
    assert_eq!(error.unresolved, ids(&["A"]));
}

#[test]
fn reports_what_depends_on_a_cycle() {
    let mut deps = DepGraph::new();
    deps.insert("A".to_string(), ids(&["B"]));
    deps.insert("B".to_string(), ids(&["A", "X"]));
    deps.insert("C".to_string(), ids(&["A"]));
    deps.insert("D".to_string(), ids(&["X"]));

    let error = topo_sort(&deps).unwrap_err();
    assert_eq!(sorted(error.unresolved), ids(&["A", "B", "C"]));
}

#[test]
fn sorts_a_graph_without_edges() {
    let mut deps = DepGraph::new();
    deps.insert("A".to_string(), ids(&[]));
    deps.insert("B".to_string(), ids(&[]));
    deps.insert("C".to_string(), ids(&[]));

    let order = topo_sort(&deps).unwrap();
    assert_eq!(sorted(order), ids(&["A", "B", "C"]));
}

#[test]
fn lists_each_identifier_once() {
    let mut deps = DepGraph::new();
    deps.insert("A".to_string(), ids(&[]));
    deps.insert("B".to_string(), ids(&["A", "A", "L"]));
    deps.insert("C".to_string(), ids(&["A", "B"]));

    let order = topo_sort(&deps).unwrap();
    assert_eq!(sorted(order.clone()), ids(&["A", "B", "C", "L"]));
    assert!(position(&order, "A") < position(&order, "B"));
    assert!(position(&order, "L") < position(&order, "B"));
    assert!(position(&order, "B") < position(&order, "C"));
}

#[test]
fn a_later_insert_replaces_the_entry() {
    let mut deps = DepGraph::new();
    deps.insert("A".to_string(), ids(&["B"]));
    deps.insert("B".to_string(), ids(&["A"]));
    deps.insert("B".to_string(), ids(&[]));
    assert_eq!(deps.len(), 2);

    assert_eq!(topo_sort(&deps).unwrap(), ids(&["B", "A"]));
}

#[test]
fn sorts_integer_identifiers() {
    let mut deps: DepGraph<u64> = DepGraph::new();
    deps.insert(3, vec![2, 1]);
    deps.insert(2, vec![1]);
    deps.insert(4, vec![3]);
    assert_eq!(topo_sort(&deps).unwrap(), vec![1, 2, 3, 4]);

    deps.insert(1, vec![4]);
    let mut unresolved = topo_sort(&deps).unwrap_err().unresolved;
    unresolved.sort();
    assert_eq!(unresolved, vec![1, 2, 3, 4]);
}

#[test]
fn dep_graph_keeps_sets() {
    let mut graph = DepGraph::new();
    assert!(graph.is_empty());
    add_edge(&mut graph, "A".to_string(), "B".to_string());
    add_edge(&mut graph, "A".to_string(), "C".to_string());
    add_edge(&mut graph, "A".to_string(), "B".to_string());
    add_edge(&mut graph, "D".to_string(), "A".to_string());
    assert!(!graph.is_empty());
    assert_eq!(graph.len(), 2);
    assert_eq!(sorted(graph.keys()), ids(&["A", "D"]));
    assert_eq!(graph.get(&"A".to_string()).map(|set| sorted(set.clone())), Some(ids(&["B", "C"])));
    assert_eq!(graph.get(&"B".to_string()), None);
    assert!(graph.contains_key(&"D".to_string()));

    graph.remove_dependency(&"A".to_string(), &"B".to_string());
    graph.remove_dependency(&"A".to_string(), &"X".to_string());
    graph.remove_dependency(&"X".to_string(), &"B".to_string());
    assert_eq!(graph.get(&"A".to_string()), Some(&ids(&["C"])));

    graph.remove(&"A".to_string());
    graph.remove(&"X".to_string());
    assert_eq!(graph.keys(), ids(&["D"]));
}

#[test]
fn sorter_state_starts_with_the_free_identifiers() {
    let mut deps = DepGraph::new();
    deps.insert("A".to_string(), ids(&[]));
    deps.insert("B".to_string(), ids(&["A", "L"]));
    deps.insert("C".to_string(), ids(&["B"]));

    let state = TopoSort::from(&deps);
    assert!(!state.is_resolved());
    assert_eq!(sorted(state.unresolved()), ids(&["B", "C"]));
    assert_eq!(state.get_dependents(&"A".to_string()), Some(&ids(&["B"])));
    assert_eq!(state.get_dependents(&"L".to_string()), Some(&ids(&["B"])));
    assert_eq!(state.get_dependents(&"B".to_string()), Some(&ids(&["C"])));
    assert_eq!(state.get_dependents(&"C".to_string()), None);
}

#[test]
fn resolve_releases_an_identifier_with_its_last_dependency() {
    let mut deps = DepGraph::new();
    deps.insert("B".to_string(), ids(&["A", "L"]));

    let mut state = TopoSort::from(&deps);
    state.resolve(&"B".to_string(), &"A".to_string());
    assert_eq!(state.unresolved(), ids(&["B"]));
    state.resolve(&"B".to_string(), &"A".to_string());
    assert_eq!(state.unresolved(), ids(&["B"]));
    state.resolve(&"X".to_string(), &"L".to_string());
    assert!(!state.is_resolved());
    state.resolve(&"B".to_string(), &"L".to_string());
    assert!(state.is_resolved());
    assert_eq!(state.unresolved(), Vec::<String>::new());
}

#[test]
fn the_default_state_is_resolved() {
    let state = TopoSort::<String>::default();
    assert!(state.is_resolved());
    assert_eq!(state.get_dependents(&"A".to_string()), None);
}
