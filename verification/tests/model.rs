use wave_function_collapse::abstractions::{PriorityWebError, ProximityGraphError};
use wave_function_collapse::model::TestStruct;
use wave_function_collapse::wave_function::{CollapsedNodeState, UncollapsedWaveFunction};
use std::collections::HashMap;

#[test]
fn test_struct_new_keeps_id() {
    let test_struct = TestStruct::new(String::from("special"));
    assert_eq!("special", test_struct.id);
}

#[test]
fn test_struct_new_random_has_uuid_v4_id() {
    let first = TestStruct::new_random();
    let second = TestStruct::new_random();
    assert_ne!(first, second);
    let chars: Vec<char> = first.id.chars().collect();
    assert_eq!(36, chars.len());
    for (index, character) in chars.iter().enumerate() {
        match index {
            8 | 13 | 18 | 23 => assert_eq!('-', *character),
            14 => assert_eq!('4', *character),
            _ => assert!(character.is_ascii_hexdigit() && !character.is_ascii_uppercase()),
        }
    }
}

#[test]
fn test_struct_orders_by_id() {
    assert!(TestStruct::new(String::from("a")) < TestStruct::new(String::from("b")));
}

#[test]
fn collapsed_and_uncollapsed_states_compare_by_value() {
    let first = CollapsedNodeState { node_id: String::from("n1"), node_state_id: Some(3u32) };
    assert_eq!(first.clone(), first);
    let mut per_node = HashMap::new();
    per_node.insert(String::from("n1"), None::<u32>);
    let uncollapsed = UncollapsedWaveFunction { node_state_per_node: per_node };
    assert_eq!(uncollapsed.clone(), uncollapsed);
}

#[test]
fn errors_can_be_matched() {
    assert!(matches!(
        PriorityWebError::FailedToMapValuesToNodesAtAnyDistance,
        PriorityWebError::FailedToMapValuesToNodesAtAnyDistance
    ));
    assert!(matches!(ProximityGraphError::TestError.clone(), ProximityGraphError::TestError));
}
