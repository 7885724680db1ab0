use wave_function_collapse::node::{Node, NodeStateCollection};
use wave_function_collapse::wave_function::WaveFunction;

fn ids(values: &[&str]) -> Vec<String> {
    values.iter().map(|value| String::from(*value)).collect()
}

fn entry(neighbor: &str, collections: &[&str]) -> (String, Vec<String>) {
    (String::from(neighbor), ids(collections))
}

fn collection(id: &str, state: &str, permitted: &[&str]) -> NodeStateCollection {
    NodeStateCollection::new(String::from(id), String::from(state), ids(permitted))
}

fn two_states() -> Vec<NodeStateCollection> {
    vec![collection("c_a", "a", &["a", "b"]), collection("c_b", "b", &["a", "b"])]
}

#[test]
fn validation_reports_missing_neighbor() {
    let nodes = vec![
        Node::new(String::from("n1"), vec![entry("ghost", &["c_a", "c_b"])]),
        Node::new(String::from("n2"), vec![entry("n1", &["c_a", "c_b"])]),
    ];
    let result = WaveFunction::new(nodes, two_states()).collapse(None);
    assert_eq!("Neighbor node ghost does not exist in main list of nodes.", result.err().unwrap());
}

#[test]
fn validation_reports_duplicate_state() {
    let mut collections = two_states();
    collections.push(collection("c_a_again", "a", &["b"]));
    let nodes = vec![
        Node::new(String::from("n1"), vec![entry("n2", &["c_a", "c_a_again"])]),
        Node::new(String::from("n2"), vec![entry("n1", &["c_a", "c_b"])]),
    ];
    let result = WaveFunction::new(nodes, collections).collapse(None);
    assert_eq!("Found duplicate node state when node n1 references neighbor node n2.", result.err().unwrap());
}

#[test]
fn validation_reports_missing_state_reference() {
    let nodes = vec![
        Node::new(String::from("n1"), vec![entry("n2", &["c_a", "c_b"])]),
        Node::new(String::from("n2"), vec![entry("n1", &["c_b"])]),
    ];
    let result = WaveFunction::new(nodes, two_states()).collapse(None);
    assert_eq!(
        "Missing at least one node state reference when node n2 references neighbor node n1.",
        result.err().unwrap()
    );
}

#[test]
fn validation_reports_unreachable_nodes() {
    let nodes = vec![
        Node::new(String::from("n1"), vec![entry("n2", &["c_a", "c_b"])]),
        Node::new(String::from("n2"), vec![entry("n1", &["c_a", "c_b"])]),
        Node::new(String::from("n3"), Vec::new()),
    ];
    let result = WaveFunction::new(nodes, two_states()).collapse(None);
    assert_eq!(
        "Not all nodes connect together. At least one node must be able to traverse to all other nodes.",
        result.err().unwrap()
    );
}

#[test]
fn validation_accepts_a_chain_reached_from_its_first_node() {
    let nodes = vec![
        Node::new(String::from("n1"), vec![entry("n2", &["c_a", "c_b"])]),
        Node::new(String::from("n2"), vec![entry("n3", &["c_a", "c_b"])]),
        Node::new(String::from("n3"), Vec::new()),
    ];
    let result = WaveFunction::new(nodes, two_states()).collapse(None);
    assert!(result.is_ok());
}

#[test]
fn validation_rejects_duplicate_node_ids() {
    let nodes = vec![
        Node::new(String::from("n1"), vec![entry("n2", &["c_a", "c_b"])]),
        Node::new(String::from("n2"), vec![entry("n1", &["c_a", "c_b"])]),
        Node::new(String::from("n2"), vec![entry("n1", &["c_a", "c_b"])]),
    ];
    let result = WaveFunction::new(nodes, two_states()).collapse(None);
    assert_eq!(
        "Not all nodes connect together. At least one node must be able to traverse to all other nodes.",
        result.err().unwrap()
    );
}

#[test]
fn validation_checks_too_few_nodes_first() {
    let nodes = vec![Node::new(String::from("n1"), vec![entry("ghost", &["c_a"])])];
    let result = WaveFunction::new(nodes, two_states()).collapse(None);
    assert_eq!("There must be two or more nodes.", result.err().unwrap());
}

#[test]
fn node_and_collection_getters() {
    let node = Node::new(String::from("n1"), vec![entry("n2", &["c_a", "c_b"])]);
    assert_eq!("n1", node.get_id().as_str());
    assert_eq!(1, node.neighbors_length());
    assert_eq!("n2", node.neighbor_id(0).as_str());
    assert_eq!(&ids(&["c_a", "c_b"]), node.neighbor_collection_ids(0));
    let c = collection("c_a", "a", &["a", "b"]);
    assert_eq!("c_a", c.get_id().as_str());
    assert_eq!("a", c.get_node_state_id().as_str());
    assert_eq!(&ids(&["a", "b"]), c.get_node_state_ids());
}
