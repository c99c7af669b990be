use graph::{Graph, NodeName};
use std::collections::{HashMap, HashSet};

fn names(list: &[&str]) -> Vec<String> {
    list.iter().map(|name| name.to_string()).collect()
}

fn set_of(list: &[&str]) -> HashSet<NodeName> {
    list.iter().map(|name| name.to_string()).collect()
}

fn neighbours_of(graph: &Graph, name: &str) -> Option<HashSet<NodeName>> {
    graph.find_node(name).map(|list| {
        let set: HashSet<NodeName> = list.iter().cloned().collect();
        assert_eq!(set.len(), list.len(), "a neighbour is listed twice");
        set
    })
}

fn assert_holds(graph: &Graph, expected_nodes: &HashMap<String, HashSet<NodeName>>) {
    assert_eq!(graph.len(), expected_nodes.len());
    for (name, expected) in expected_nodes.iter() {
        assert_eq!(neighbours_of(graph, name).as_ref(), Some(expected));
    }
}

fn add_1_nodes_test_helper(
    mut input: &mut Vec<String>,
    expected_nodes: &HashMap<String, HashSet<NodeName>>,
) {
    let mut g = Graph::new();
    g.add_nodes(&mut input);
    assert_holds(&g, expected_nodes);
}

fn add_2_nodes_test_helper(
    mut input: &mut Vec<String>,
    mut input_2: &mut Vec<String>,
    expected_nodes: &HashMap<String, HashSet<NodeName>>,
) {
    let mut g = Graph::new();
    g.add_nodes(&mut input);
    g.add_nodes(&mut input_2);
    assert_holds(&g, expected_nodes);
}

fn find_node_helper(input: String, expected_out: Option<&HashSet<String>>) {
    let mut graph = Graph::new();
    graph.add_nodes(&mut vec!["a".to_string()]);

    assert_eq!(neighbours_of(&graph, &input).as_ref(), expected_out);
}

#[test]
fn new_test() {
    let graph = Graph::new();
    assert_eq!(graph.len(), 0);
}

#[test]
fn add_0_nodes() {
    let hm = HashMap::new();
    add_1_nodes_test_helper(&mut vec![], &hm);
}

#[test]
fn add_1_nodes_no_neighbor() {
    let mut hm = HashMap::new();
    hm.insert("a".to_string(), HashSet::new());
    add_1_nodes_test_helper(&mut vec!["a".to_string()], &hm);
}

#[test]
fn add_1_nodes_1_neighbor() {
    let mut hm = HashMap::new();
    let mut hs1 = HashSet::new();
    let mut hs2 = HashSet::new();

    hs1.insert("b".to_string());
    hm.insert("a".to_string(), hs1);

    hs2.insert("a".to_string());
    hm.insert("b".to_string(), hs2);
    add_1_nodes_test_helper(&mut vec!["a".to_string(), "b".to_string()], &hm);
}

#[test]
fn add_1_nodes_2_neighbor() {
    let mut hm = HashMap::new();
    let mut hs1 = HashSet::new();
    let mut hs2 = HashSet::new();
    let mut hs3 = HashSet::new();

    hs1.insert("b".to_string());
    hs1.insert("c".to_string());
    hm.insert("a".to_string(), hs1);

    hs2.insert("a".to_string());
    hm.insert("b".to_string(), hs2);

    hs3.insert("a".to_string());
    hm.insert("c".to_string(), hs3);

    add_1_nodes_test_helper(
        &mut vec!["a".to_string(), "b".to_string(), "c".to_string()],
        &hm,
    );
}

#[test]
fn add_2_nodes_0_neighbor() {
    let mut hm = HashMap::new();
    hm.insert("a".to_string(), HashSet::new());
    hm.insert("b".to_string(), HashSet::new());
    add_2_nodes_test_helper(&mut vec!["a".to_string()], &mut vec!["b".to_string()], &hm);
}

#[test]
fn add_2_nodes_1_neighbor() {
    let mut hm = HashMap::new();
    let mut hs1 = HashSet::new();
    let mut hs2 = HashSet::new();

    hs1.insert("b".to_string());
    hs2.insert("a".to_string());

    hm.insert("a".to_string(), hs1);
    hm.insert("b".to_string(), hs2);
    add_2_nodes_test_helper(
        &mut vec!["a".to_string(), "b".to_string()],
        &mut vec!["b".to_string()],
        &hm,
    );
}

#[test]
fn add_2_nodes_2_neighbor() {
    let mut hm = HashMap::new();
    let mut hs1 = HashSet::new();
    let mut hs2 = HashSet::new();
    let mut hs3 = HashSet::new();

    hs1.insert("b".to_string());
    hs1.insert("c".to_string());

    hs2.insert("a".to_string());
    hs2.insert("c".to_string());

    hs3.insert("a".to_string());
    hs3.insert("b".to_string());

    hm.insert("a".to_string(), hs1);
    hm.insert("b".to_string(), hs2);
    hm.insert("c".to_string(), hs3);
    add_2_nodes_test_helper(
        &mut vec!["a".to_string(), "b".to_string(), "c".to_string()],
        &mut vec!["b".to_string(), "a".to_string(), "c".to_string()],
        &hm,
    );
}

#[test]
fn exist_test() {
    find_node_helper("a".to_string(), Some(&HashSet::new()));
}

#[test]
fn not_exist_test() {
    find_node_helper("b".to_string(), None);
}

#[test]
fn add_nodes_empties_the_line() {
    let mut g = Graph::new();
    let mut line = names(&["a", "b", "c"]);
    g.add_nodes(&mut line);
    assert!(line.is_empty());
    let mut nothing: Vec<String> = Vec::new();
    g.add_nodes(&mut nothing);
    assert!(nothing.is_empty());
    assert_eq!(g.len(), 3);
}

#[test]
fn declaration_is_mutual() {
    let mut g = Graph::new();
    g.add_nodes(&mut names(&["a", "b", "c"]));
    assert_eq!(neighbours_of(&g, "a"), Some(set_of(&["b", "c"])));
    assert_eq!(neighbours_of(&g, "b"), Some(set_of(&["a"])));
    assert_eq!(neighbours_of(&g, "c"), Some(set_of(&["a"])));
}

#[test]
fn repeated_neighbours_collapse() {
    let mut g = Graph::new();
    g.add_nodes(&mut names(&["a", "b", "b", "c", "b"]));
    assert_eq!(g.find_node("a").map(|list| list.len()), Some(2));
    assert_eq!(neighbours_of(&g, "a"), Some(set_of(&["b", "c"])));
    assert_eq!(g.find_node("b").map(|list| list.len()), Some(1));
    assert_eq!(g.len(), 3);
}

#[test]
fn a_node_is_never_its_own_neighbour() {
    let mut g = Graph::new();
    g.add_nodes(&mut names(&["a", "a"]));
    assert_eq!(g.len(), 1);
    assert_eq!(neighbours_of(&g, "a"), Some(HashSet::new()));
    g.add_nodes(&mut names(&["a", "b", "a", "a"]));
    assert_eq!(g.len(), 2);
    assert_eq!(neighbours_of(&g, "a"), Some(set_of(&["b"])));
    assert_eq!(neighbours_of(&g, "b"), Some(set_of(&["a"])));
}

#[test]
fn a_later_declaration_adds_to_an_earlier_one() {
    let mut g = Graph::new();
    g.add_nodes(&mut names(&["a", "b"]));
    g.add_nodes(&mut names(&["a", "c"]));
    assert_eq!(neighbours_of(&g, "a"), Some(set_of(&["b", "c"])));
    assert_eq!(neighbours_of(&g, "b"), Some(set_of(&["a"])));
    assert_eq!(neighbours_of(&g, "c"), Some(set_of(&["a"])));
    g.add_nodes(&mut names(&["a"]));
    assert_eq!(neighbours_of(&g, "a"), Some(set_of(&["b", "c"])));
    assert_eq!(g.len(), 3);
}

#[test]
fn edges_declared_by_others_survive_a_declaration() {
    let mut g = Graph::new();
    g.add_nodes(&mut names(&["b", "a"]));
    g.add_nodes(&mut names(&["c", "a"]));
    g.add_nodes(&mut names(&["a", "d"]));
    assert_eq!(neighbours_of(&g, "a"), Some(set_of(&["b", "c", "d"])));
    assert_eq!(neighbours_of(&g, "d"), Some(set_of(&["a"])));
}

#[test]
fn a_name_only_mentioned_becomes_a_node() {
    let mut g = Graph::new();
    g.add_nodes(&mut names(&["a", "x"]));
    assert_eq!(neighbours_of(&g, "x"), Some(set_of(&["a"])));
    assert_eq!(neighbours_of(&g, "y"), None);
}

#[test]
fn four_lines_give_the_expected_neighbour_sets() {
    let mut g = Graph::new();
    g.add_nodes(&mut names(&["a", "b", "d"]));
    g.add_nodes(&mut names(&["b", "a", "d"]));
    g.add_nodes(&mut names(&["c"]));
    g.add_nodes(&mut names(&["d", "c"]));
    let mut expected = HashMap::new();
    expected.insert("a".to_string(), set_of(&["b", "d"]));
    expected.insert("b".to_string(), set_of(&["a", "d"]));
    expected.insert("c".to_string(), set_of(&["d"]));
    expected.insert("d".to_string(), set_of(&["a", "b", "c"]));
    assert_holds(&g, &expected);
}
