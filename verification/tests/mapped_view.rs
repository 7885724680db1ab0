use std::collections::HashMap;
use wave_function_collapse::mapped_view::MappedView;

#[test]
fn mapped_view_reads_nothing_until_oriented() {
    let mut view: MappedView<usize, usize, u32> = MappedView::new();
    let mut inner = HashMap::new();
    inner.insert(7usize, 70u32);
    view.insert(1, inner);
    assert_eq!(None, view.get(&7));
}

#[test]
fn mapped_view_reads_what_was_inserted_for_its_orientation() {
    let mut view: MappedView<usize, usize, u32> = MappedView::new();
    let mut first = HashMap::new();
    first.insert(7usize, 70u32);
    first.insert(8usize, 80u32);
    view.insert(1, first);
    let mut second = HashMap::new();
    second.insert(7usize, 71u32);
    view.insert(2, second);

    view.orient(1);
    assert_eq!(Some(&70), view.get(&7));
    assert_eq!(Some(&80), view.get(&8));
    assert_eq!(None, view.get(&9));

    view.orient(2);
    assert_eq!(Some(&71), view.get(&7));
    assert_eq!(None, view.get(&8));

    view.orient(3);
    assert_eq!(None, view.get(&7));

    view.reset();
    assert_eq!(None, view.get(&7));
}

#[test]
fn mapped_view_insert_replaces_inner_map() {
    let mut view: MappedView<usize, usize, u32> = MappedView::new();
    let mut first = HashMap::new();
    first.insert(7usize, 70u32);
    view.insert(1, first);
    let mut replacement = HashMap::new();
    replacement.insert(8usize, 80u32);
    view.insert(1, replacement);
    view.orient(1);
    assert_eq!(None, view.get(&7));
    assert_eq!(Some(&80), view.get(&8));
}

#[test]
fn mapped_view_insert_individual_spreads_over_view_keys() {
    let mut view: MappedView<usize, usize, u32> = MappedView::new();
    let mut per_view_key = HashMap::new();
    per_view_key.insert(1usize, 10u32);
    per_view_key.insert(2usize, 20u32);
    per_view_key.insert(3usize, 30u32);
    view.insert_individual(5, per_view_key);
    let mut more = HashMap::new();
    more.insert(2usize, 21u32);
    view.insert_individual(6, more);

    view.orient(1);
    assert_eq!(Some(&10), view.get(&5));
    assert_eq!(None, view.get(&6));
    view.orient(2);
    assert_eq!(Some(&20), view.get(&5));
    assert_eq!(Some(&21), view.get(&6));
    view.orient(3);
    assert_eq!(Some(&30), view.get(&5));
}

#[test]
fn mapped_view_insert_partial_is_insert_individual_per_key() {
    let mut partial_view: MappedView<usize, usize, u32> = MappedView::new();
    let mut individual_view: MappedView<usize, usize, u32> = MappedView::new();
    let mut partial = HashMap::new();
    for key in 0..4usize {
        let mut per_view_key = HashMap::new();
        for view_key in 0..3usize {
            per_view_key.insert(view_key, (key * 10 + view_key) as u32);
        }
        individual_view.insert_individual(key, per_view_key.clone());
        partial.insert(key, per_view_key);
    }
    partial_view.insert_partial(partial);
    for view_key in 0..3usize {
        partial_view.orient(view_key);
        individual_view.orient(view_key);
        for key in 0..4usize {
            assert_eq!(Some(&((key * 10 + view_key) as u32)), partial_view.get(&key));
            assert_eq!(partial_view.get(&key), individual_view.get(&key));
        }
    }
}

#[test]
fn mapped_view_insert_partial_matches_individual_inserts_in_reverse_order() {
    let mut partial_view: MappedView<usize, usize, u32> = MappedView::new();
    let mut individual_view: MappedView<usize, usize, u32> = MappedView::new();
    let mut existing = HashMap::new();
    existing.insert(9usize, 900u32);
    existing.insert(1usize, 100u32);
    partial_view.insert(0, existing.clone());
    individual_view.insert(0, existing);
    let mut partial = HashMap::new();
    let mut per_key = Vec::new();
    for key in 0..3usize {
        let mut per_view_key = HashMap::new();
        per_view_key.insert(0usize, (key * 7) as u32);
        if key != 2 {
            per_view_key.insert(1usize, (key * 7 + 1) as u32);
        }
        per_key.push((key, per_view_key.clone()));
        partial.insert(key, per_view_key);
    }
    for (key, per_view_key) in per_key.into_iter().rev() {
        individual_view.insert_individual(key, per_view_key);
    }
    partial_view.insert_partial(partial);
    for view_key in 0..2usize {
        partial_view.orient(view_key);
        individual_view.orient(view_key);
        for key in 0..10usize {
            assert_eq!(partial_view.get(&key), individual_view.get(&key));
        }
    }
    partial_view.orient(0);
    assert_eq!(Some(&900), partial_view.get(&9));
    assert_eq!(Some(&7), partial_view.get(&1));
    partial_view.orient(1);
    assert_eq!(None, partial_view.get(&2));
    assert_eq!(Some(&8), partial_view.get(&1));
}
