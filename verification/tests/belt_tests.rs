use factory::logistics::{Belt, BeltInputConnection, BeltOutputConnection, Connection, Stack};
use factory::types::ITEM_WIDTH;

fn sample_stack(id: u16) -> Stack {
    Stack::new(id, 1)
}

fn belt_with_slots(slots: u32, speed: u32) -> Belt {
    Belt::new(slots * ITEM_WIDTH, speed)
}

fn slot_distance(slots: u32) -> u32 {
    slots * ITEM_WIDTH
}

fn ticks_for_distance(belt: &Belt, distance: u32) -> u32 {
    if distance == 0 {
        0
    } else {
        (distance + belt.speed() - 1) / belt.speed()
    }
}

fn run_distance(belt: &mut Belt, distance: u32) {
    let ticks = ticks_for_distance(belt, distance);
    if ticks > 0 {
        belt.run(ticks);
    }
}

#[test]
fn add_run_remove_single_item() {
    let mut belt = belt_with_slots(5, 1);

    assert!(belt.add_item(sample_stack(42)));
    assert!(belt.sanity_check());

    assert_eq!(belt.item_count(), 1);
    assert_eq!(belt.empty_space_front(), belt.length() - ITEM_WIDTH);
    assert_eq!(belt.empty_space_back(), 0);

    let head = belt.items().front().expect("item present");
    assert_eq!(head.stack, sample_stack(42));
    assert!(head.is_group_head);
    assert!(head.is_group_tail);
    assert_eq!(head.group_size, 1);
    assert_eq!(head.next_item_dist, None);

    let steps_to_front = belt.length() - ITEM_WIDTH;
    run_distance(&mut belt, steps_to_front);
    assert!(belt.sanity_check());
    assert_eq!(belt.empty_space_front(), 0);

    let removed = belt.remove_item();
    assert_eq!(removed, Some(sample_stack(42)));
    assert!(belt.is_empty());
    assert_eq!(belt.item_count(), 0);
    assert_eq!(belt.empty_space_front(), belt.length());
    assert_eq!(belt.empty_space_back(), belt.length());
}

#[test]
fn add_item_rejects_multiplicity_stacks() {
    let mut belt = belt_with_slots(3, 1);
    let mut stack = sample_stack(7);
    stack.multiplicity = 2;

    assert!(!belt.add_item(stack));
    assert!(belt.is_empty());
    assert_eq!(belt.empty_space_front(), belt.length());
    assert_eq!(belt.empty_space_back(), belt.length());
}

#[test]
fn input_connection_feeds_belt() {
    let mut belt = belt_with_slots(5, ITEM_WIDTH);
    let mut connection = BeltOutputConnection::new(10, 3, None);

    assert!(connection.accept_stack(&Stack::new(42, 6)));
    belt.set_input_connection(Some(connection));

    belt.run(1);

    assert_eq!(belt.item_count(), 2);
    let head = belt.items().front().expect("expected head stack");
    assert_eq!(head.stack.item_type, 42);
    assert_eq!(head.stack.item_count, 3);
    assert_eq!(head.stack.multiplicity, 2);
    assert!(belt.input_connection().unwrap().is_empty());
}

#[test]
fn output_connection_respects_item_limit() {
    let mut belt = belt_with_slots(5, ITEM_WIDTH);
    let stack = Stack::new(7, 2);

    assert!(belt.add_item(stack.clone()));
    run_distance(&mut belt, slot_distance(1));
    assert!(belt.add_item(stack.clone()));

    let to_front = belt.empty_space_front();
    run_distance(&mut belt, to_front);
    assert_eq!(belt.empty_space_front(), 0);

    let connection = BeltInputConnection::new(3, None);
    belt.set_output_connection(Some(connection));

    belt.run(0);
    assert_eq!(
        belt.output_connection()
            .expect("output connection attached")
            .buffered_item_count(),
        2
    );
    assert_eq!(belt.item_count(), 1);

    let to_front = belt.empty_space_front();
    run_distance(&mut belt, to_front);
    assert_eq!(
        belt.output_connection()
            .expect("output connection attached")
            .buffered_item_count(),
        2
    );
    assert_eq!(belt.item_count(), 1);
}

#[test]
fn multiple_items_progress_individually() {
    let mut belt = belt_with_slots(6, 1);

    assert!(belt.add_item(sample_stack(1)));
    assert!(belt.sanity_check());

    run_distance(&mut belt, slot_distance(2));
    assert!(belt.sanity_check());
    assert!(
        belt.empty_space_back() > 0,
        "expected trailing space after moving existing items"
    );

    assert!(belt.add_item(sample_stack(2)));
    assert!(belt.sanity_check());

    let to_front = belt.empty_space_front();
    run_distance(&mut belt, to_front);
    assert!(belt.sanity_check());

    let first = belt.remove_item().expect("first item available");
    assert_eq!(first, sample_stack(1));

    assert_eq!(belt.item_count(), 1);
    let head = belt.items().front().unwrap();
    assert_eq!(head.stack, sample_stack(2));
    assert!(head.is_group_head);

    let to_front = belt.empty_space_front();
    run_distance(&mut belt, to_front);
    let second = belt.remove_item().expect("second item available");
    assert_eq!(second, sample_stack(2));
    assert!(belt.is_empty());
}

#[test]
fn multiple_items_progress_grouped_creation() {
    let mut belt = belt_with_slots(6, 1);

    assert!(belt.add_item(sample_stack(1)));
    assert!(belt.sanity_check());

    run_distance(&mut belt, slot_distance(1));
    assert!(belt.sanity_check());
    assert!(
        belt.empty_space_back() > 0,
        "expected trailing space after moving existing items"
    );

    assert!(belt.add_item(sample_stack(2)));
    assert!(belt.sanity_check());

    let to_front = belt.empty_space_front();
    run_distance(&mut belt, to_front);
    assert!(belt.sanity_check());

    assert!(belt.items()[0].is_group_head);
    assert!(!belt.items()[0].is_group_tail);
    assert!(!belt.items()[1].is_group_head);
    assert!(belt.items()[1].is_group_tail);
    assert_eq!(belt.items()[0].group_size, 2);
    assert_eq!(belt.items()[1].group_size, 2);

    let first = belt.remove_item().expect("first item available");
    assert_eq!(first, sample_stack(1));

    assert_eq!(belt.item_count(), 1);
    let head = belt.items().front().unwrap();
    assert_eq!(head.stack, sample_stack(2));
    assert!(head.is_group_head);

    assert_eq!(belt.remove_item(), None);

    let to_front = belt.empty_space_front();
    run_distance(&mut belt, to_front);
    let second = belt.remove_item().expect("second item available");
    assert_eq!(second, sample_stack(2));
    assert!(belt.is_empty());
}

#[test]
fn fast_belt_moves_in_chunks() {
    let mut belt = belt_with_slots(20, 7);

    assert!(belt.add_item(sample_stack(11)));
    run_distance(&mut belt, slot_distance(1));
    assert!(belt.sanity_check());

    assert!(belt.add_item(sample_stack(13)));
    assert!(belt.sanity_check());

    assert_eq!(belt.item_count(), 2);

    let gap_to_front = belt.empty_space_front();
    run_distance(&mut belt, gap_to_front);
    assert!(belt.sanity_check());

    let first = belt.remove_item();
    assert_eq!(first, Some(sample_stack(11)));

    let gap_to_front = belt.empty_space_front();
    run_distance(&mut belt, gap_to_front);
    assert!(belt.sanity_check());

    let second = belt.remove_item();
    assert_eq!(second, Some(sample_stack(13)));
    assert!(belt.is_empty());
}

#[test]
fn near_full_belt_capacity_behavior() {
    let mut belt = belt_with_slots(5, 1);

    assert!(belt.add_item(sample_stack(1)));
    run_distance(&mut belt, slot_distance(1));
    assert!(belt.add_item(sample_stack(2)));
    run_distance(&mut belt, slot_distance(1));
    assert!(belt.add_item(sample_stack(3)));
    run_distance(&mut belt, slot_distance(1));
    assert!(belt.add_item(sample_stack(4)));

    assert_eq!(belt.item_count(), 4);
    assert_eq!(belt.empty_space_front(), slot_distance(1));
    assert_eq!(belt.empty_space_back(), 0);
    assert!(
        !belt.add_item(sample_stack(99)),
        "belt with no trailing space should refuse new items"
    );

    run_distance(&mut belt, slot_distance(1));
    assert_eq!(belt.empty_space_front(), 0);
    assert_eq!(belt.empty_space_back(), slot_distance(1));

    let removed = belt.remove_item().expect("front item to remove");
    assert_eq!(removed, sample_stack(1));
    assert_eq!(belt.item_count(), 3);

    run_distance(&mut belt, slot_distance(1));
    assert_eq!(belt.empty_space_front(), 0);
    assert!(belt.empty_space_back() > slot_distance(1));

    assert!(
        belt.add_item(sample_stack(42)),
        "removing from near-full belt should make room for a new item"
    );
    assert_eq!(belt.item_count(), 4);
}

#[test]
fn half_full_belt_gap_propagation_and_compaction() {
    let mut belt = belt_with_slots(12, 1);

    assert!(belt.add_item(sample_stack(1)));
    run_distance(&mut belt, slot_distance(1));
    assert!(belt.add_item(sample_stack(2)));

    run_distance(&mut belt, slot_distance(3));
    assert!(belt.add_item(sample_stack(3)));

    run_distance(&mut belt, slot_distance(2));
    assert!(belt.add_item(sample_stack(4)));
    run_distance(&mut belt, slot_distance(1));
    assert!(belt.add_item(sample_stack(5)));
    run_distance(&mut belt, slot_distance(4));
    assert_eq!(belt.empty_space_front(), 0);
    assert!(
        belt.empty_space_back() >= slot_distance(4),
        "expect trailing space before adding the final item"
    );
    assert!(belt.add_item(sample_stack(6)));

    assert_eq!(belt.item_count(), 6);
    assert_eq!(belt.empty_space_back(), 0);

    assert_eq!(belt.items()[0].stack, sample_stack(1));
    assert!(belt.items()[0].is_group_head);
    assert_eq!(belt.items()[0].group_size, 2);
    assert_eq!(belt.items()[1].stack, sample_stack(2));
    assert!(belt.items()[1].is_group_tail);
    assert_eq!(belt.items()[1].next_item_dist, Some(slot_distance(2)));

    assert_eq!(belt.items()[2].stack, sample_stack(3));
    assert!(belt.items()[2].is_group_head);
    assert_eq!(belt.items()[2].group_size, 1);
    assert_eq!(belt.items()[2].next_item_dist, Some(slot_distance(1)));

    assert_eq!(belt.items()[3].stack, sample_stack(4));
    assert!(belt.items()[3].is_group_head);
    assert_eq!(belt.items()[3].group_size, 2);
    assert_eq!(belt.items()[4].stack, sample_stack(5));
    assert!(belt.items()[4].is_group_tail);
    assert_eq!(belt.items()[4].next_item_dist, Some(slot_distance(3)));

    assert_eq!(belt.items()[5].stack, sample_stack(6));
    assert!(belt.items()[5].is_group_head);
    assert_eq!(belt.items()[5].group_size, 1);

    let drained = belt.remove_while_run(slot_distance(2), None, None);
    assert_eq!(drained, vec![sample_stack(1), sample_stack(2)]);
    assert_eq!(belt.empty_space_front(), slot_distance(2));
    assert_eq!(belt.items()[0].stack, sample_stack(3));
    assert!(belt.items()[0].is_group_head);
    assert_eq!(belt.items()[0].group_size, 1);
    assert_eq!(
        belt.items()[0].next_item_dist,
        Some(slot_distance(1)),
        "gap between first remaining item and next group should have propagated without compaction"
    );
    assert_eq!(belt.item_count(), 4);

    belt.run(belt.length());
    assert_eq!(belt.item_count(), 4);
    assert_eq!(belt.empty_space_front(), 0);
    assert_eq!(belt.items()[0].group_size, 4);
    assert!(belt.items()[0].is_group_head);
    assert!(!belt.items()[3].is_group_head);
    assert!(belt.items()[3].is_group_tail);
    assert_eq!(belt.items()[3].next_item_dist, None);
    assert_eq!(belt.empty_space_back(), slot_distance(8));
}

#[test]
fn identical_items_merge_into_multiplicity() {
    let mut belt = belt_with_slots(6, 1);
    let stack = sample_stack(99);

    assert!(belt.add_item(stack.clone()));
    run_distance(&mut belt, slot_distance(2));
    assert!(belt.add_item(stack.clone()));

    belt.run(belt.length());
    assert!(belt.sanity_check());

    assert_eq!(belt.items().len(), 1);
    let head = belt.items().front().unwrap();
    assert_eq!(head.stack.multiplicity, 2);
    assert_eq!(belt.item_count(), 2);

    let removed_first = belt.remove_item().expect("expected first identical stack");
    assert_eq!(removed_first, stack);
    assert_eq!(belt.items().front().unwrap().stack.multiplicity, 1);
    assert_eq!(belt.empty_space_front(), slot_distance(1));

    let gap_to_front = belt.empty_space_front();
    run_distance(&mut belt, gap_to_front);
    assert!(belt.sanity_check());
    let removed_second = belt.remove_item().expect("expected second identical stack");
    assert_eq!(removed_second, stack);
    assert!(belt.is_empty());
    assert_eq!(belt.item_count(), 0);
}

#[test]
fn remove_items_partially_consumes_multiplicity() {
    let mut belt = belt_with_slots(8, 1);
    let stack = sample_stack(77);

    assert!(belt.add_item(stack.clone()));
    run_distance(&mut belt, slot_distance(1));
    assert!(belt.add_item(stack.clone()));

    belt.run(belt.length());
    let to_front = belt.empty_space_front();
    if to_front > 0 {
        run_distance(&mut belt, to_front);
    }

    let head = belt.items().front().expect("expected merged head");
    assert_eq!(head.stack.multiplicity, 2);
    assert_eq!(belt.empty_space_front(), 0);

    let prior_back = belt.empty_space_back();
    let removed = belt.remove_while_run(slot_distance(1), None, None);
    assert_eq!(removed, vec![stack.clone()]);

    let head = belt.items().front().expect("expected remaining stack");
    assert_eq!(head.stack.multiplicity, 1);
    assert_eq!(belt.empty_space_front(), 0);
    assert_eq!(belt.empty_space_back(), prior_back + slot_distance(1));
}

#[test]
fn remove_items_consumes_entire_multiplicity_stack() {
    let mut belt = belt_with_slots(10, 1);
    let stack_a = sample_stack(55);
    let stack_b = sample_stack(56);

    assert!(belt.add_item(stack_a.clone()));
    run_distance(&mut belt, slot_distance(1));
    assert!(belt.add_item(stack_a.clone()));
    run_distance(&mut belt, slot_distance(3));
    assert!(belt.add_item(stack_b.clone()));

    belt.run(belt.length());
    let to_front = belt.empty_space_front();
    if to_front > 0 {
        run_distance(&mut belt, to_front);
    }

    let head = belt.items().front().expect("expected merged head");
    assert_eq!(head.stack.multiplicity, 2);
    assert_eq!(belt.item_count(), 3);

    let prior_back = belt.empty_space_back();
    let removed = belt.remove_while_run(slot_distance(2), None, None);
    let mut expected_removed = stack_a.clone();
    expected_removed.multiplicity = 2;
    assert_eq!(removed, vec![expected_removed]);
    assert_eq!(removed[0].multiplicity, 2);

    let next = belt.items().front().expect("expected trailing stack");
    assert_eq!(next.stack, stack_b);
    assert!(next.is_group_head);
    assert_eq!(belt.empty_space_back(), prior_back + slot_distance(2));
    assert_eq!(belt.item_count(), 1);
}

#[test]
fn separated_identical_items_merge_into_single_entry() {
    let mut belt = belt_with_slots(12, 1);
    let stack = sample_stack(88);

    assert!(belt.add_item(stack.clone()));
    run_distance(&mut belt, slot_distance(2));
    assert!(belt.add_item(stack.clone()));
    run_distance(&mut belt, slot_distance(3));
    assert!(belt.add_item(stack.clone()));

    assert_eq!(belt.items().len(), 3);
    assert!(belt.items().iter().all(|item| item.stack.multiplicity == 1));
    assert!(belt.items().iter().any(|item| item.next_item_dist.is_some()));

    belt.run(belt.length());
    let to_front = belt.empty_space_front();
    if to_front > 0 {
        run_distance(&mut belt, to_front);
    }

    assert!(belt.sanity_check());

    assert_eq!(belt.items().len(), 1);
    let head = belt.items().front().expect("expected merged stack");
    assert_eq!(head.stack.multiplicity, 3);
    assert_eq!(head.group_size, 1);
    assert!(head.is_group_head);
    assert!(head.is_group_tail);
    assert_eq!(belt.item_count(), 3);
}

#[test]
fn separated_identical_group_merges_with_trailing_items() {
    let mut belt = belt_with_slots(14, 1);
    let stack_identical = sample_stack(91);
    let stack_other = sample_stack(92);

    assert!(belt.add_item(stack_identical.clone()));
    run_distance(&mut belt, slot_distance(2));
    assert!(belt.add_item(stack_identical.clone()));
    run_distance(&mut belt, slot_distance(3));
    assert!(belt.add_item(stack_identical.clone()));
    run_distance(&mut belt, slot_distance(4));
    assert!(belt.add_item(stack_other.clone()));

    assert_eq!(belt.items().len(), 4);
    assert_eq!(belt.items().front().unwrap().stack, stack_identical);
    assert_eq!(belt.items().front().unwrap().stack.multiplicity, 1);
    assert_eq!(belt.items()[1].stack, stack_identical);
    assert_eq!(belt.items()[1].stack.multiplicity, 1);
    assert_eq!(belt.items()[2].stack, stack_identical);
    assert_eq!(belt.items()[3].stack, stack_other);

    belt.run(belt.length());
    let to_front = belt.empty_space_front();
    if to_front > 0 {
        run_distance(&mut belt, to_front);
    }

    assert!(belt.sanity_check());

    assert_eq!(belt.items().len(), 2);
    let head = belt.items().front().expect("expected merged head");
    assert_eq!(head.stack, stack_identical);
    assert_eq!(head.stack.multiplicity, 3);
    assert_eq!(belt.items()[1].stack, stack_other);
    assert_eq!(belt.items()[1].stack.multiplicity, 1);
    assert_eq!(belt.item_count(), 4);
}

#[test]
fn gapped_identical_groups_merge_into_three_entries() {
    let mut belt = belt_with_slots(24, 1);
    let large_stack = Stack::new(123, 4);
    let small_stack = Stack::new(123, 1);

    assert!(belt.add_item(large_stack.clone()));
    run_distance(&mut belt, slot_distance(2));
    assert!(belt.add_item(large_stack.clone()));
    run_distance(&mut belt, slot_distance(2));
    assert!(belt.add_item(large_stack.clone()));

    run_distance(&mut belt, slot_distance(2));
    assert!(belt.add_item(small_stack.clone()));

    run_distance(&mut belt, slot_distance(2));
    assert!(belt.add_item(large_stack.clone()));
    run_distance(&mut belt, slot_distance(2));
    assert!(belt.add_item(large_stack.clone()));

    assert_eq!(belt.items().len(), 6);
    assert!(belt.items().iter().all(|item| item.stack.multiplicity == 1));
    for idx in 0..belt.items().len() - 1 {
        let distance = belt.items()[idx]
            .next_item_dist
            .expect("expected gaps between initial items");
        assert!(
            distance >= slot_distance(1),
            "expected at least one empty slot between items"
        );
    }

    belt.run(belt.length());
    let to_front = belt.empty_space_front();
    if to_front > 0 {
        run_distance(&mut belt, to_front);
    }

    assert!(belt.sanity_check());

    assert_eq!(belt.items().len(), 3);

    let front = &belt.items()[0];
    assert_eq!(front.stack, large_stack);
    assert_eq!(front.stack.multiplicity, 3);
    assert!(front.is_group_head);
    assert!(!front.is_group_tail);
    assert_eq!(front.next_item_dist, Some(0));

    let middle = &belt.items()[1];
    assert_eq!(middle.stack, small_stack);
    assert_eq!(middle.stack.multiplicity, 1);
    assert!(!middle.is_group_head);
    assert!(!middle.is_group_tail);
    assert_eq!(middle.next_item_dist, Some(0));

    let tail = &belt.items()[2];
    assert_eq!(tail.stack, large_stack);
    assert_eq!(tail.stack.multiplicity, 2);
    assert!(!tail.is_group_head);
    assert!(tail.is_group_tail);
    assert_eq!(tail.next_item_dist, None);

    for item in belt.items().iter() {
        assert_eq!(item.group_size, 3);
    }
    assert_eq!(belt.item_count(), 6);
}
