use wave_function_collapse::node::{Node, NodeStateCollection};
use wave_function_collapse::sorting::stable_sort_by_keys;
use wave_function_collapse::wave_function::WaveFunction;

fn ids(values: &[&str]) -> Vec<String> {
    values.iter().map(|value| String::from(*value)).collect()
}

fn collection(id: &str, state: &str, permitted: &[&str]) -> NodeStateCollection {
    NodeStateCollection::new(String::from(id), String::from(state), ids(permitted))
}

/// Three states where a node's neighbors may not share its state.
fn different_state_collections() -> Vec<NodeStateCollection> {
    vec![
        collection("not_a", "a", &["b", "c"]),
        collection("not_b", "b", &["a", "c"]),
        collection("not_c", "c", &["a", "b"]),
    ]
}

fn different(neighbor: &str) -> (String, Vec<String>) {
    (String::from(neighbor), ids(&["not_a", "not_b", "not_c"]))
}

/// A triangle of nodes that list each other, each pair needing different states.
fn triangle() -> WaveFunction {
    let nodes = vec![
        Node::new(String::from("n1"), vec![different("n2"), different("n3")]),
        Node::new(String::from("n2"), vec![different("n1"), different("n3")]),
        Node::new(String::from("n3"), vec![different("n1"), different("n2")]),
    ];
    WaveFunction::new(nodes, different_state_collections())
}

#[test]
fn collapse_triangle_gives_three_different_states() {
    for seed in [None, Some(1u64), Some(2), Some(3), Some(u64::MAX)] {
        let collapsed = triangle().collapse(seed).unwrap();
        let first = collapsed.get(&String::from("n1")).unwrap().clone();
        let second = collapsed.get(&String::from("n2")).unwrap().clone();
        let third = collapsed.get(&String::from("n3")).unwrap().clone();
        assert_ne!(first, second);
        assert_ne!(second, third);
        assert_ne!(first, third);
    }
}

#[test]
fn collapse_lists_nodes_in_order() {
    let collapsed = triangle().collapse(None).unwrap();
    let pairs = collapsed.node_state_per_node();
    assert_eq!(3, pairs.len());
    assert_eq!("n1", pairs[0].0);
    assert_eq!("n2", pairs[1].0);
    assert_eq!("n3", pairs[2].0);
    assert_eq!(None, collapsed.get(&String::from("n4")));
}

#[test]
fn collapse_four_nodes_in_a_clique_with_three_states_fails() {
    let nodes = vec![
        Node::new(String::from("n1"), vec![different("n2"), different("n3"), different("n4")]),
        Node::new(String::from("n2"), vec![different("n1"), different("n3"), different("n4")]),
        Node::new(String::from("n3"), vec![different("n1"), different("n2"), different("n4")]),
        Node::new(String::from("n4"), vec![different("n1"), different("n2"), different("n3")]),
    ];
    let wave_function = WaveFunction::new(nodes, different_state_collections());
    assert_eq!("Cannot collapse wave function.", wave_function.collapse(None).err().unwrap());
}

#[test]
fn collapse_without_states_fails() {
    let nodes = vec![
        Node::new(String::from("n1"), vec![(String::from("n2"), Vec::new())]),
        Node::new(String::from("n2"), vec![(String::from("n1"), Vec::new())]),
    ];
    let wave_function = WaveFunction::new(nodes, Vec::new());
    assert_eq!("Cannot collapse wave function.", wave_function.collapse(None).err().unwrap());
    assert_eq!("Cannot collapse wave function.", wave_function.collapse(Some(9)).err().unwrap());
}

#[test]
fn collapse_unrestricted_wave_function_succeeds() {
    let collections = vec![
        collection("any_a", "a", &["a", "b", "c"]),
        collection("any_b", "b", &["a", "b", "c"]),
        collection("any_c", "c", &["a", "b", "c"]),
    ];
    let any = |neighbor: &str| (String::from(neighbor), ids(&["any_a", "any_b", "any_c"]));
    let mut nodes = Vec::new();
    for index in 0..12usize {
        let mut entries = Vec::new();
        if index > 0 {
            entries.push(any(&format!("n{}", index - 1)));
        }
        if index < 11 {
            entries.push(any(&format!("n{}", index + 1)));
        }
        nodes.push(Node::new(format!("n{}", index), entries));
    }
    let wave_function = WaveFunction::new(nodes, collections);
    for seed in [None, Some(4u64), Some(5)] {
        let collapsed = wave_function.collapse(seed).unwrap();
        assert_eq!(12, collapsed.node_state_per_node().len());
        for (_, state) in collapsed.node_state_per_node().iter() {
            assert_eq!("a", state.as_str());
        }
    }
}

#[test]
fn collapse_restriction_from_a_node_that_is_not_listed_back_applies() {
    let collections = vec![
        collection("only_b", "a", &["b"]),
        collection("only_b_too", "b", &["b"]),
        collection("any_a", "a", &["a", "b"]),
        collection("any_b", "b", &["a", "b"]),
    ];
    let nodes = vec![
        Node::new(String::from("n1"), vec![(String::from("n2"), ids(&["only_b", "only_b_too"]))]),
        Node::new(String::from("n2"), Vec::new()),
    ];
    let collapsed = WaveFunction::new(nodes, collections).collapse(None).unwrap();
    assert_eq!("a", collapsed.get(&String::from("n1")).unwrap().as_str());
    assert_eq!("b", collapsed.get(&String::from("n2")).unwrap().as_str());
}

#[test]
fn collapse_with_the_same_seed_is_repeatable() {
    let wave_function = triangle();
    let first = wave_function.collapse(Some(42)).unwrap();
    let second = wave_function.collapse(Some(42)).unwrap();
    assert_eq!(first.node_state_per_node(), second.node_state_per_node());
}

#[test]
fn stable_sort_orders_by_key_and_keeps_ties_in_place() {
    let mut items: Vec<usize> = vec![0, 1, 2, 3, 4, 5];
    let keys: Vec<u128> = vec![5, 1, 5, 0, 1, 3];
    stable_sort_by_keys(&mut items, &keys);
    assert_eq!(vec![3, 1, 4, 5, 0, 2], items);
}

#[test]
fn collapse_walks_back_to_the_nearest_node_that_lists_the_exhausted_one() {
    // With "r" at "s1", "c" runs out of states; the walk back stops at "d",
    // which lists "c", then "d" runs out and the walk stops at "r", which
    // moves on to "s2".
    let collections = vec![
        collection("r_s1", "s1", &["s2"]),
        collection("r_s2", "s2", &["s1", "s2"]),
        collection("c_s1", "s1", &["s1"]),
        collection("c_s2", "s2", &["s1"]),
        collection("d_s1", "s1", &["s1", "s2"]),
        collection("d_s2", "s2", &["s1", "s2"]),
    ];
    let nodes = vec![
        Node::new(String::from("r"), vec![(String::from("d"), ids(&["r_s1", "r_s2"]))]),
        Node::new(String::from("c"), vec![(String::from("d"), ids(&["c_s1", "c_s2"]))]),
        Node::new(
            String::from("d"),
            vec![(String::from("r"), ids(&["d_s1", "d_s2"])), (String::from("c"), ids(&["d_s1", "d_s2"]))],
        ),
    ];
    let collapsed = WaveFunction::new(nodes, collections).collapse(None).unwrap();
    assert_eq!("s2", collapsed.get(&String::from("r")).unwrap().as_str());
    assert_eq!("s1", collapsed.get(&String::from("c")).unwrap().as_str());
    assert_eq!("s1", collapsed.get(&String::from("d")).unwrap().as_str());
}
