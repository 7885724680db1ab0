use rand::Rng;
use uuid::Uuid;
use wave_function_collapse::node::{Node, NodeStateCollection};
use wave_function_collapse::wave_function::WaveFunction;

fn node(id: &str, entries: Vec<(String, Vec<String>)>) -> Node {
    Node::new(String::from(id), entries)
}

#[test]
fn tests_initialize() {
    let nodes: Vec<Node> = Vec::new();
    let node_state_collections: Vec<NodeStateCollection> = Vec::new();
    let _wave_function = WaveFunction::new(nodes, node_state_collections);
}

#[test]
fn wave_function_initialize() {
    let nodes: Vec<Node> = Vec::new();
    let node_state_collections: Vec<NodeStateCollection> = Vec::new();
    let _wave_function = WaveFunction::new(nodes, node_state_collections);
}

#[test]
fn wave_function_no_nodes() {
    let nodes: Vec<Node> = Vec::new();
    let node_state_collections: Vec<NodeStateCollection> = Vec::new();
    let wave_function = WaveFunction::new(nodes, node_state_collections);
    let collapsed_wave_function_result = wave_function.collapse(None);
    assert_eq!("There must be two or more nodes.", collapsed_wave_function_result.err().unwrap());
}

#[test]
fn one_node() {
    let mut nodes: Vec<Node> = Vec::new();
    let node_state_collections: Vec<NodeStateCollection> = Vec::new();

    nodes.push(Node::new(Uuid::new_v4().to_string(), Vec::new()));

    let wave_function = WaveFunction::new(nodes, node_state_collections);
    let collapsed_wave_function_result = wave_function.collapse(None);
    assert_eq!("There must be two or more nodes.", collapsed_wave_function_result.err().unwrap());
}

#[test]
fn wave_function_two_nodes_without_neighbors() {
    let mut nodes: Vec<Node> = Vec::new();
    let node_state_collections: Vec<NodeStateCollection> = Vec::new();

    nodes.push(Node::new(Uuid::new_v4().to_string(), Vec::new()));
    nodes.push(Node::new(Uuid::new_v4().to_string(), Vec::new()));

    let wave_function = WaveFunction::new(nodes, node_state_collections);
    let collapsed_wave_function_result = wave_function.collapse(None);
    assert_eq!(
        "Not all nodes connect together. At least one node must be able to traverse to all other nodes.",
        collapsed_wave_function_result.err().unwrap()
    );
}

#[test]
fn two_nodes_with_only_one_is_a_neighbor() {
    let mut node_state_collections: Vec<NodeStateCollection> = Vec::new();

    let node_state_id: String = Uuid::new_v4().to_string();
    let first_node_id: String = Uuid::new_v4().to_string();
    let second_node_id: String = Uuid::new_v4().to_string();

    let same_node_state_collection_id: String = Uuid::new_v4().to_string();
    node_state_collections.push(NodeStateCollection::new(
        same_node_state_collection_id.clone(),
        node_state_id.clone(),
        vec![node_state_id.clone()],
    ));

    let nodes = vec![
        Node::new(
            first_node_id.clone(),
            vec![(second_node_id.clone(), vec![same_node_state_collection_id.clone()])],
        ),
        Node::new(second_node_id.clone(), Vec::new()),
    ];

    let wave_function = WaveFunction::new(nodes, node_state_collections);
    let collapsed_wave_function_result = wave_function.collapse(None);
    let collapsed_wave_function = collapsed_wave_function_result.unwrap();

    assert_eq!(&node_state_id, collapsed_wave_function.get(&first_node_id).unwrap());
    assert_eq!(&node_state_id, collapsed_wave_function.get(&second_node_id).unwrap());
}

#[test]
fn two_nodes_both_as_neighbors() {
    let mut node_state_collections: Vec<NodeStateCollection> = Vec::new();

    let node_state_id: String = Uuid::new_v4().to_string();
    let first_node_id: String = Uuid::new_v4().to_string();
    let second_node_id: String = Uuid::new_v4().to_string();

    let same_node_state_collection_id: String = Uuid::new_v4().to_string();
    node_state_collections.push(NodeStateCollection::new(
        same_node_state_collection_id.clone(),
        node_state_id.clone(),
        vec![node_state_id.clone()],
    ));

    let nodes = vec![
        Node::new(
            first_node_id.clone(),
            vec![(second_node_id.clone(), vec![same_node_state_collection_id.clone()])],
        ),
        Node::new(
            second_node_id.clone(),
            vec![(first_node_id.clone(), vec![same_node_state_collection_id.clone()])],
        ),
    ];

    let wave_function = WaveFunction::new(nodes, node_state_collections);
    let collapsed_wave_function_result = wave_function.collapse(None);

    if let Err(error_message) = &collapsed_wave_function_result {
        panic!("Error: {error_message}");
    }

    let collapsed_wave_function = collapsed_wave_function_result.ok().unwrap();

    assert_eq!(&node_state_id, collapsed_wave_function.get(&first_node_id).unwrap());
    assert_eq!(&node_state_id, collapsed_wave_function.get(&second_node_id).unwrap());
}

fn two_nodes_with_different_states() -> (WaveFunction, String, String) {
    let mut node_state_collections: Vec<NodeStateCollection> = Vec::new();

    let one_node_state_id: String = Uuid::new_v4().to_string();
    let two_node_state_id: String = Uuid::new_v4().to_string();
    let first_node_id: String = Uuid::new_v4().to_string();
    let second_node_id: String = Uuid::new_v4().to_string();

    let if_one_not_two_node_state_collection_id: String = Uuid::new_v4().to_string();
    node_state_collections.push(NodeStateCollection::new(
        if_one_not_two_node_state_collection_id.clone(),
        one_node_state_id.clone(),
        vec![two_node_state_id.clone()],
    ));

    let if_two_not_one_node_state_collection_id: String = Uuid::new_v4().to_string();
    node_state_collections.push(NodeStateCollection::new(
        if_two_not_one_node_state_collection_id.clone(),
        two_node_state_id.clone(),
        vec![one_node_state_id.clone()],
    ));

    let nodes = vec![
        Node::new(
            first_node_id.clone(),
            vec![(
                second_node_id.clone(),
                vec![
                    if_one_not_two_node_state_collection_id.clone(),
                    if_two_not_one_node_state_collection_id.clone(),
                ],
            )],
        ),
        Node::new(
            second_node_id.clone(),
            vec![(
                first_node_id.clone(),
                vec![
                    if_one_not_two_node_state_collection_id.clone(),
                    if_two_not_one_node_state_collection_id.clone(),
                ],
            )],
        ),
    ];

    (WaveFunction::new(nodes, node_state_collections), first_node_id, second_node_id)
}

#[test]
fn two_nodes_both_as_neighbors_and_different_states() {
    let (wave_function, first_node_id, second_node_id) = two_nodes_with_different_states();
    let collapsed_wave_function_result = wave_function.collapse(None);

    if let Err(error_message) = &collapsed_wave_function_result {
        panic!("Error: {error_message}");
    }

    let collapsed_wave_function = collapsed_wave_function_result.ok().unwrap();

    assert_ne!(
        collapsed_wave_function.get(&second_node_id).unwrap(),
        collapsed_wave_function.get(&first_node_id).unwrap()
    );
}

#[test]
fn wave_function_two_nodes_both_as_neighbors_and_different_states_with_random_runs() {
    let mut rng = rand::thread_rng();

    for _ in 0..10 {
        let (wave_function, first_node_id, second_node_id) = two_nodes_with_different_states();
        let random_seed = Some(rng.gen::<u64>());
        let collapsed_wave_function_result = wave_function.collapse(random_seed);

        if let Err(error_message) = &collapsed_wave_function_result {
            panic!("Error: {error_message}");
        }

        let collapsed_wave_function = collapsed_wave_function_result.ok().unwrap();

        assert_ne!(
            collapsed_wave_function.get(&second_node_id).unwrap(),
            collapsed_wave_function.get(&first_node_id).unwrap()
        );
    }
}

#[test]
fn wave_function_two_nodes_both_as_neighbors_with_conflicting_state_requirements() {
    let mut rng = rand::thread_rng();

    for _ in 0..10 {
        let mut node_state_collections: Vec<NodeStateCollection> = Vec::new();

        let one_node_state_id: String = String::from("state_A");
        let two_node_state_id: String = String::from("state_B");
        let three_node_state_id: String = String::from("state_C");
        let four_node_state_id: String = String::from("state_D");
        let first_node_id: String = String::from("node_1");
        let second_node_id: String = String::from("node_2");

        let mut collection = |state: &String, permitted: Vec<String>| -> String {
            let id = Uuid::new_v4().to_string();
            node_state_collections.push(NodeStateCollection::new(id.clone(), state.clone(), permitted));
            id
        };

        let if_one_then_three = collection(&one_node_state_id, vec![three_node_state_id.clone()]);
        let if_two_then_four = collection(&two_node_state_id, vec![four_node_state_id.clone()]);
        let if_three_then_no = collection(&three_node_state_id, Vec::new());
        let if_four_then_no = collection(&four_node_state_id, Vec::new());
        let if_three_then_two = collection(&three_node_state_id, vec![two_node_state_id.clone()]);
        let if_four_then_one = collection(&four_node_state_id, vec![one_node_state_id.clone()]);
        let if_one_then_no = collection(&one_node_state_id, Vec::new());
        let if_two_then_no = collection(&two_node_state_id, Vec::new());

        let nodes = vec![
            node(
                "node_1",
                vec![(
                    second_node_id.clone(),
                    vec![if_one_then_three, if_two_then_four, if_three_then_no, if_four_then_no],
                )],
            ),
            node(
                "node_2",
                vec![(
                    first_node_id.clone(),
                    vec![if_three_then_two, if_four_then_one, if_one_then_no, if_two_then_no],
                )],
            ),
        ];

        let wave_function = WaveFunction::new(nodes, node_state_collections);
        let random_seed = Some(rng.gen::<u64>());
        let collapsed_wave_function_result = wave_function.collapse(random_seed);

        assert_eq!("Cannot collapse wave function.", collapsed_wave_function_result.err().unwrap());
    }
}
