use dnd_list::model::{
    DndDemo, Element, ElementContents, InputEvent, Pos, ITEM_HEIGHT, MAX_CLICK_RECORDS,
};
use dnd_list::slew::SlewPair;

/// A list with the reserved header anchor followed by the given values;
/// identities are assigned in storage order starting at 0.
fn make_list(vals: &[i32]) -> DndDemo {
    let mut counter: u64 = 0;
    let mut elements: Vec<Element> = Vec::new();
    elements.push(Element::from_value(
        ElementContents::Header("H".to_string()),
        &mut counter,
    ));
    for v in vals {
        elements.push(Element::from_value(ElementContents::Value(*v), &mut counter));
    }
    DndDemo {
        elements,
        drag_state: None,
        drop_region_hovered: false,
        split_point: 1,
        last_few_clicks: Vec::new(),
        next_id: counter,
    }
}

fn values(d: &DndDemo) -> Vec<i32> {
    d.elements
        .iter()
        .filter_map(|e| match &e.contents {
            ElementContents::Value(v) => Some(*v),
            ElementContents::Header(_) => None,
        })
        .collect()
}

fn id_of_value(d: &DndDemo, v: i32) -> u64 {
    d.elements
        .iter()
        .find(|e| matches!(&e.contents, ElementContents::Value(x) if *x == v))
        .unwrap()
        .id
}

fn selected_values(d: &DndDemo) -> Vec<i32> {
    d.elements
        .iter()
        .filter(|e| e.is_selected)
        .filter_map(|e| match &e.contents {
            ElementContents::Value(v) => Some(*v),
            ElementContents::Header(_) => None,
        })
        .collect()
}

#[test]
fn new_builds_the_demo_list() {
    let d = DndDemo::new();
    assert_eq!(d.elements.len(), 9);
    for (i, e) in d.elements.iter().enumerate() {
        assert_eq!(e.id, i as u64);
        assert!(!e.is_selected);
        assert_eq!(e.list_y, SlewPair { current: 0, target: 0 });
    }
    assert!(matches!(&d.elements[0].contents, ElementContents::Header(s) if s == "Group A"));
    assert!(matches!(&d.elements[4].contents, ElementContents::Header(s) if s == "Group B"));
    assert_eq!(values(&d), vec![1, 2, 3, 4, 5, 6, 7]);
    assert!(d.drag_state.is_none());
    assert_eq!(d.split_point, 1);
    assert_eq!(d.next_id, 9);
}

#[test]
fn layout_static_positions_rows() {
    let mut d = make_list(&[1, 2, 3]);
    d.layout_static();
    for (i, e) in d.elements.iter().enumerate() {
        let y = i as i64 * ITEM_HEIGHT;
        assert_eq!(e.list_y, SlewPair { current: y, target: y });
    }
}

#[test]
fn layout_static_is_idempotent() {
    let mut d = make_list(&[5, 6, 7, 8]);
    d.layout_static();
    let first: Vec<SlewPair> = d.elements.iter().map(|e| e.list_y).collect();
    d.layout_static();
    let second: Vec<SlewPair> = d.elements.iter().map(|e| e.list_y).collect();
    assert_eq!(first, second);
}

#[test]
fn slew_moves_by_rate_and_never_overshoots() {
    let mut p = SlewPair { current: 0, target: 1000 };
    p.update(1);
    assert_eq!(p.current, 300);
    p.update(1);
    assert_eq!(p.current, 600);
    p.update(1);
    assert_eq!(p.current, 900);
    p.update(1);
    assert_eq!(p.current, 1000);
    p.update(1);
    assert_eq!(p.current, 1000);

    let mut q = SlewPair { current: 1000, target: 0 };
    q.update(1);
    assert_eq!(q.current, 700);
}

#[test]
fn slew_converges_in_boundedly_many_steps() {
    let mut p = SlewPair { current: -7, target: 12345 };
    let diff = (p.target - p.current).abs();
    let bound = diff / 300 + 1;
    let mut steps = 0i64;
    while p.current != p.target {
        p.update(1);
        steps += 1;
        assert!(steps <= bound);
    }
    assert_eq!(p.current, p.target);
}

#[test]
fn select_toggle_flips_only_the_named_item() {
    let mut d = make_list(&[1, 2, 3]);
    let id2 = id_of_value(&d, 2);
    d.select_toggle(id2);
    assert_eq!(selected_values(&d), vec![2]);
    d.select_toggle(id2);
    assert_eq!(selected_values(&d), Vec::<i32>::new());
}

#[test]
fn select_toggle_ignores_stale_id() {
    let mut d = make_list(&[1, 2, 3]);
    d.select_toggle(999);
    assert_eq!(selected_values(&d), Vec::<i32>::new());
}

#[test]
fn select_range_is_order_independent() {
    // Click the item at index 1, then command-click the item at index 4:
    // indices 1 through 4 inclusive end selected.
    let mut d = make_list(&[1, 2, 3, 4, 5]);
    d.handle_click(id_of_value(&d, 1), false, 0);
    d.handle_click(id_of_value(&d, 4), true, 1);
    assert_eq!(selected_values(&d), vec![1, 2, 3, 4]);

    let mut e = make_list(&[1, 2, 3, 4, 5]);
    e.handle_click(id_of_value(&e, 4), false, 0);
    e.handle_click(id_of_value(&e, 1), true, 1);
    assert_eq!(selected_values(&e), vec![1, 2, 3, 4]);
}

#[test]
fn select_range_with_stale_endpoint_is_a_noop() {
    let mut d = make_list(&[1, 2, 3]);
    d.select_range(999, id_of_value(&d, 2));
    assert_eq!(selected_values(&d), Vec::<i32>::new());
    d.select_range(id_of_value(&d, 2), 999);
    assert_eq!(selected_values(&d), Vec::<i32>::new());
}

#[test]
fn range_selection_skips_headers() {
    // The demo list is [Group A, 1, 2, 3, Group B, 4, 5, 6, 7]; a range
    // from 3 to 4 spans the second header, which stays unselected.
    let mut d = DndDemo::new();
    d.handle_click(3, false, 0); // value 3 at index 3
    d.handle_click(5, true, 1); // value 4 at index 5
    assert_eq!(selected_values(&d), vec![3, 4]);
    assert!(d.elements.iter().all(|e| {
        !matches!(e.contents, ElementContents::Header(_)) || !e.is_selected
    }));
}

#[test]
fn reorder_keeps_headers_in_place() {
    // Drag the last value of the demo list to the top: it lands right
    // below the anchor header, and both headers keep their relative order.
    let mut d = DndDemo::new();
    d.layout_static();
    let id7 = id_of_value(&d, 7);
    d.begin_drag(Pos { x: 0, y: 176 }, Pos { x: 0, y: 176 }, id7);
    d.update_activation(Pos { x: 0, y: 0 });
    d.update_split_point(-10);
    assert_eq!(d.split_point, 1);
    d.clear_drag_state();
    assert_eq!(values(&d), vec![7, 1, 2, 3, 4, 5, 6]);
    assert!(matches!(&d.elements[0].contents, ElementContents::Header(s) if s == "Group A"));
    assert!(matches!(&d.elements[5].contents, ElementContents::Header(s) if s == "Group B"));
}

#[test]
fn click_history_is_bounded() {
    let mut d = make_list(&[1, 2, 3]);
    let id1 = id_of_value(&d, 1);
    for t in 0..7u64 {
        d.handle_click(id1, false, t);
    }
    assert_eq!(d.last_few_clicks.len(), MAX_CLICK_RECORDS);
    assert_eq!(d.last_few_clicks[0].time, 2);
    assert_eq!(d.last_few_clicks[MAX_CLICK_RECORDS - 1].time, 6);
}

#[test]
fn header_is_immune_to_clicks_and_drags() {
    let mut d = make_list(&[1, 2, 3]);
    let header_id = d.elements[0].id;
    d.select_toggle(header_id);
    assert_eq!(selected_values(&d), Vec::<i32>::new());
    assert!(!d.elements[0].is_selected);
    d.handle_click(header_id, false, 0);
    assert!(d.last_few_clicks.is_empty());
    d.begin_drag(Pos { x: 0, y: 0 }, Pos { x: 0, y: 0 }, header_id);
    assert!(d.drag_state.is_none());
}

#[test]
fn activation_needs_more_than_threshold_travel() {
    let mut d = make_list(&[1, 2, 3]);
    let id2 = id_of_value(&d, 2);
    d.begin_drag(Pos { x: 0, y: 0 }, Pos { x: 0, y: 44 }, id2);
    assert!(d.drag_state.is_some());
    assert!(!DndDemo::have_active_drag(&d.drag_state));

    // Four units of travel stay below the threshold: still pending, and no
    // item counts as carried.
    d.update_activation(Pos { x: 4, y: 0 });
    assert!(!DndDemo::have_active_drag(&d.drag_state));
    assert!(!DndDemo::is_part_of_drag(&d.drag_state, &d.elements[2]));

    // Six units cross it.
    d.update_activation(Pos { x: 6, y: 0 });
    assert!(DndDemo::have_active_drag(&d.drag_state));
    assert!(DndDemo::is_part_of_drag(&d.drag_state, &d.elements[2]));
}

#[test]
fn dragging_an_unselected_item_carries_only_itself() {
    // List [H, 1, 2, 3, 4, 5] with 2 and 4 selected; dragging 3 to the top
    // moves only 3, and the drop consumes the selection.
    let mut d = make_list(&[1, 2, 3, 4, 5]);
    d.select_toggle(id_of_value(&d, 2));
    d.select_toggle(id_of_value(&d, 4));
    d.layout_static();
    d.begin_drag(Pos { x: 0, y: 66 }, Pos { x: 0, y: 66 }, id_of_value(&d, 3));
    d.update_activation(Pos { x: 10, y: 66 });
    assert!(DndDemo::have_active_drag(&d.drag_state));
    let carried: Vec<bool> = d
        .elements
        .iter()
        .map(|e| DndDemo::is_part_of_drag(&d.drag_state, e))
        .collect();
    assert_eq!(carried, vec![false, false, false, true, false, false]);
    d.update_split_point(-100);
    assert_eq!(d.split_point, 1);
    d.clear_drag_state();
    assert_eq!(values(&d), vec![3, 1, 2, 4, 5]);
    assert!(matches!(&d.elements[0].contents, ElementContents::Header(_)));
    assert!(d.elements.iter().all(|e| !e.is_selected));
    assert!(d.drag_state.is_none());
}

#[test]
fn dragging_a_selected_item_carries_its_selection_group() {
    // List [H, 1, 2, 3, 4, 5] with 2 and 4 selected; dragging 2 to split
    // point 4 moves the group {2, 4} together, keeping its relative order.
    let mut d = make_list(&[1, 2, 3, 4, 5]);
    d.select_toggle(id_of_value(&d, 2));
    d.select_toggle(id_of_value(&d, 4));
    d.layout_static();
    d.begin_drag(Pos { x: 0, y: 44 }, Pos { x: 0, y: 44 }, id_of_value(&d, 2));
    d.update_activation(Pos { x: 10, y: 44 });
    let carried: Vec<bool> = d
        .elements
        .iter()
        .map(|e| DndDemo::is_part_of_drag(&d.drag_state, e))
        .collect();
    assert_eq!(carried, vec![false, false, true, false, true, false]);
    d.update_split_point(100);
    assert_eq!(d.split_point, 4);
    d.clear_drag_state();
    assert_eq!(values(&d), vec![1, 3, 2, 4, 5]);
    assert!(d.elements.iter().all(|e| !e.is_selected));
}

#[test]
fn carried_group_keeps_relative_order_at_end_drop() {
    let mut d = make_list(&[1, 2, 3, 4, 5]);
    d.select_toggle(id_of_value(&d, 1));
    d.select_toggle(id_of_value(&d, 4));
    d.layout_static();
    d.begin_drag(Pos { x: 0, y: 22 }, Pos { x: 0, y: 22 }, id_of_value(&d, 1));
    d.update_activation(Pos { x: 0, y: 300 });
    d.update_split_point(10_000);
    assert_eq!(d.split_point, 6);
    d.clear_drag_state();
    assert_eq!(values(&d), vec![2, 3, 5, 1, 4]);
}

#[test]
fn begin_drag_collapses_the_carried_stack() {
    // With 2 and 4 selected and 2 grabbed, item 4 starts two rows below
    // the grabbed item and heads for the slot right under it.
    let mut d = make_list(&[1, 2, 3, 4, 5]);
    d.select_toggle(id_of_value(&d, 2));
    d.select_toggle(id_of_value(&d, 4));
    d.begin_drag(Pos { x: 0, y: 44 }, Pos { x: 0, y: 44 }, id_of_value(&d, 2));
    assert_eq!(d.elements[2].drag_y, SlewPair { current: 0, target: 0 });
    assert_eq!(d.elements[4].drag_y, SlewPair { current: 44, target: 22 });
    let st = d.drag_state.as_ref().unwrap();
    assert_eq!(st.carried, vec![id_of_value(&d, 2), id_of_value(&d, 4)]);
    assert!(!st.activated);
    assert_eq!(st.dragged_id, id_of_value(&d, 2));
}

#[test]
fn release_before_activation_keeps_order_but_clears_selection() {
    let mut d = make_list(&[1, 2, 3]);
    d.select_toggle(id_of_value(&d, 1));
    d.begin_drag(Pos { x: 0, y: 22 }, Pos { x: 0, y: 22 }, id_of_value(&d, 2));
    d.update_activation(Pos { x: 3, y: 22 });
    d.clear_drag_state();
    assert_eq!(values(&d), vec![1, 2, 3]);
    assert!(d.elements.iter().all(|e| !e.is_selected));
    assert!(d.drag_state.is_none());
}

#[test]
fn layout_during_drag_opens_a_gap_at_the_split_point() {
    let mut d = make_list(&[1, 2, 3, 4, 5]);
    d.layout_static();
    d.begin_drag(Pos { x: 0, y: 66 }, Pos { x: 0, y: 66 }, id_of_value(&d, 3));
    d.update_activation(Pos { x: 10, y: 66 });
    d.layout_during_drag(1, 1);
    let targets: Vec<i64> = d.elements.iter().map(|e| e.list_y.target).collect();
    // Index 3 is carried and keeps its static target; the others stack
    // with one row height of gap opened at index 1.
    assert_eq!(targets, vec![0, 44, 66, 66, 88, 110]);
    let currents: Vec<i64> = d.elements.iter().map(|e| e.list_y.current).collect();
    assert_eq!(currents, vec![0, 22, 44, 66, 88, 110]);
}

#[test]
fn update_split_point_tracks_the_pointer() {
    let mut d = make_list(&[1, 2, 3, 4, 5]);
    d.layout_static();
    d.update_split_point(-50);
    assert_eq!(d.split_point, 1);
    d.update_split_point(50); // below the centres of rows 0 and 1
    assert_eq!(d.split_point, 2);
    d.update_split_point(10_000);
    assert_eq!(d.split_point, 6);
}

#[test]
fn floating_position_follows_the_pointer() {
    let mut d = make_list(&[1, 2, 3]);
    d.layout_static();
    let id3 = id_of_value(&d, 3);
    d.begin_drag(Pos { x: 5, y: 5 }, Pos { x: 0, y: 66 }, id3);
    d.update_activation(Pos { x: 50, y: 50 });
    // The grab offset is left_top - mouse = (-5, 61); the dragged item's
    // own offset within the stack starts at zero.
    let p = d.floating_position(Pos { x: 20, y: 20 }, 3);
    assert_eq!(p, Pos { x: 15, y: 81 });
}

#[test]
fn frame_applies_clicks_and_static_layout() {
    let mut d = make_list(&[1, 2, 3]);
    let id2 = id_of_value(&d, 2);
    let events = vec![InputEvent::Click { item_id: id2, ctrl_held: false, time: 7 }];
    d.frame(16, Pos { x: 0, y: 0 }, false, &events);
    assert_eq!(selected_values(&d), vec![2]);
    for (i, e) in d.elements.iter().enumerate() {
        let y = i as i64 * ITEM_HEIGHT;
        assert_eq!(e.list_y, SlewPair { current: y, target: y });
    }
    assert!(d.drag_state.is_none());
}

#[test]
fn frame_runs_a_whole_drag_to_commit() {
    let mut d = make_list(&[1, 2, 3, 4, 5]);
    let id3 = id_of_value(&d, 3);

    // A drag starts on item 3; nothing moves yet.
    let start = vec![InputEvent::DragStart { item_id: id3, left_top: Pos { x: 0, y: 66 } }];
    d.frame(16, Pos { x: 0, y: 66 }, true, &start);
    assert!(d.drag_state.is_some());
    assert!(!DndDemo::have_active_drag(&d.drag_state));

    // The pointer travels upward past the threshold: the drag activates
    // and the split point lands at the top.
    let none = Vec::new();
    d.frame(16, Pos { x: 0, y: -40 }, true, &none);
    assert!(DndDemo::have_active_drag(&d.drag_state));
    assert_eq!(d.split_point, 1);

    // Release: item 3 drops below the header.
    let release = vec![InputEvent::DragRelease];
    d.frame(16, Pos { x: 0, y: -40 }, true, &release);
    assert!(d.drag_state.is_none());
    assert_eq!(values(&d), vec![3, 1, 2, 4, 5]);
}
