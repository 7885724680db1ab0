use rand::SeedableRng;
use rand_chacha::ChaCha8Rng;
use std::collections::HashMap;
use wave_function_collapse::indexed_view::{IndexedView, NeighborMaskView};
use wave_function_collapse::mapped_view::MappedView;
use wave_function_collapse::mask::Mask;

/// Views for nodes 0 and 1, where node 1, oriented by its state 0, places
/// `bits` on node 0.
fn views_with_mask(bits: Vec<bool>) -> Vec<NeighborMaskView> {
    let unused: NeighborMaskView = MappedView::new();
    let mut masking: NeighborMaskView = MappedView::new();
    let mut per_state = HashMap::new();
    per_state.insert(0usize, Mask::from_bits(&bits));
    masking.insert_individual(0, per_state);
    vec![unused, masking]
}

#[test]
fn mask_from_bits_keeps_each_bit() {
    let bits = vec![true, false, false, true, true];
    let mask = Mask::from_bits(&bits);
    for (index, bit) in bits.iter().enumerate() {
        assert_eq!(*bit, mask.bit(index));
    }
}

#[test]
fn indexed_view_walks_every_state_without_masks() {
    let views: Vec<NeighborMaskView> = Vec::new();
    let mut view = IndexedView::new(vec!["a", "b", "c"], Vec::new(), 0);
    assert!(!view.is_in_some_state());
    assert_eq!(None, view.get());
    assert!(view.try_move_next(&views));
    assert_eq!(Some(&"a"), view.get());
    assert!(view.try_move_next(&views));
    assert_eq!(Some(&"b"), view.get());
    assert!(view.try_move_next(&views));
    assert_eq!(Some(&"c"), view.get());
    assert!(!view.try_move_next(&views));
    assert_eq!(None, view.get());
    assert!(view.is_in_some_state());
    assert!(!view.try_move_next(&views));
    view.reset();
    assert!(!view.is_in_some_state());
    assert!(view.try_move_next(&views));
    assert_eq!(Some(&"a"), view.get());
}

#[test]
fn indexed_view_with_no_states() {
    let views: Vec<NeighborMaskView> = Vec::new();
    let mut view: IndexedView<&str> = IndexedView::new(Vec::new(), Vec::new(), 0);
    assert!(view.is_fully_restricted(&views));
    assert!(!view.try_move_next(&views));
    assert_eq!(None, view.get());
}

#[test]
fn indexed_view_skips_masked_states() {
    let mut views = views_with_mask(vec![false, true, false, true]);
    let mut view = IndexedView::new(vec![10, 11, 12, 13], vec![1], 0);
    views[1].orient(0);
    assert!(view.try_move_next(&views));
    assert_eq!(Some(&11), view.get());
    assert!(view.try_move_next(&views));
    assert_eq!(Some(&13), view.get());
    assert!(view.try_move_previous(&views));
    assert_eq!(Some(&11), view.get());
    assert!(!view.try_move_previous(&views));
    assert!(!view.is_in_some_state());
}

#[test]
fn indexed_view_mask_applies_only_while_oriented() {
    let mut views = views_with_mask(vec![false, false, true]);
    let mut view = IndexedView::new(vec![0, 1, 2], vec![1], 0);
    assert!(view.try_move_next(&views));
    assert_eq!(Some(&0), view.get());
    assert!(!view.is_fully_restricted_or_current_state_is_restricted(&views));
    views[1].orient(0);
    assert!(view.is_fully_restricted_or_current_state_is_restricted(&views));
    assert!(!view.is_fully_restricted(&views));
    assert_eq!((2, 3), view.get_restriction_ratio(&views));
    views[1].reset();
    assert_eq!((0, 3), view.get_restriction_ratio(&views));
}

#[test]
fn indexed_view_fully_restricted_when_every_state_is_masked() {
    let mut views = views_with_mask(vec![false, false]);
    let view = IndexedView::new(vec![0, 1], vec![1], 0);
    assert!(!view.is_fully_restricted(&views));
    views[1].orient(0);
    assert!(view.is_fully_restricted(&views));
    assert!(view.is_fully_restricted_or_current_state_is_restricted(&views));
    assert_eq!((2, 2), view.get_restriction_ratio(&views));
}

#[test]
fn indexed_view_mask_for_other_key_is_ignored() {
    let mut views = views_with_mask(vec![false, false]);
    let mut view = IndexedView::new(vec![0, 1], vec![1], 5);
    views[1].orient(0);
    assert!(!view.is_fully_restricted(&views));
    assert!(view.try_move_next(&views));
    assert_eq!(Some(&0), view.get());
}

#[test]
fn indexed_view_shuffle_keeps_the_states_in_order() {
    let views: Vec<NeighborMaskView> = Vec::new();
    let mut random_instance = ChaCha8Rng::seed_from_u64(7);
    let mut view = IndexedView::new(vec!["a", "b", "c", "d"], Vec::new(), 0);
    view.shuffle(&mut random_instance);
    let mut seen = Vec::new();
    while view.try_move_next(&views) {
        seen.push(*view.get().unwrap());
    }
    assert_eq!(vec!["a", "b", "c", "d"], seen);
}

#[test]
fn mask_length_and_checked_bits() {
    let mask = Mask::from_bits(&vec![true, false, true]);
    assert_eq!(3, mask.len());
    assert_eq!(Some(true), mask.get(0));
    assert_eq!(Some(false), mask.get(1));
    assert_eq!(Some(true), mask.get(2));
    assert_eq!(None, mask.get(3));
}
