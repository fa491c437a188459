use factory::logistics::{Belt, BeltInputConnection, BeltOutputConnection, Connection, Stack};
use factory::types::ITEM_WIDTH;

const W: u32 = ITEM_WIDTH;

fn items_on(belt: &Belt) -> u64 {
    belt.items()
        .iter()
        .map(|item| item.stack.item_count as u64 * item.stack.multiplicity as u64)
        .sum()
}

fn items_around(belt: &Belt) -> u64 {
    let at_tail = belt.input_connection().map(|c| c.buffered_item_count() as u64).unwrap_or(0);
    let at_head = belt.output_connection().map(|c| c.buffered_item_count() as u64).unwrap_or(0);
    items_on(belt) + at_tail + at_head
}

fn no_equal_neighbours_touch(belt: &Belt) -> bool {
    let items = belt.items();
    (1..items.len()).all(|i| {
        !(items[i - 1].next_item_dist == Some(0) && items[i - 1].stack == items[i].stack)
    })
}

fn groups_are_true(belt: &Belt) -> bool {
    let items = belt.items();
    let mut start = 0;
    while start < items.len() {
        let size = items[start].group_size as usize;
        if size == 0 || start + size > items.len() {
            return false;
        }
        for i in start..start + size {
            let last = i == start + size - 1;
            let record = &items[i];
            if record.group_size as usize != size
                || record.is_group_head != (i == start)
                || record.is_group_tail != last
                || (record.next_item_dist == Some(0)) == last
            {
                return false;
            }
        }
        start += size;
    }
    items.back().map(|record| record.next_item_dist.is_none()).unwrap_or(true)
}

/// A belt of twelve slots that carries, head first, two touching stacks of
/// type 1, a gap of two slots, and a stack of type 2, with the head stack
/// at the head.
fn loaded_belt(speed: u32) -> Belt {
    let mut belt = Belt::new(12 * W, speed);
    assert!(belt.add_item(Stack::new(1, 5)));
    belt.run(W / speed);
    assert!(belt.add_item(Stack::new(1, 5)));
    belt.run(3 * W / speed);
    assert!(belt.add_item(Stack::new(2, 2)));
    belt.run(7 * W / speed);
    assert_eq!(belt.empty_space_front(), 0);
    assert_eq!(belt.items().len(), 2);
    assert_eq!(belt.items()[0].stack.multiplicity, 2);
    assert_eq!(belt.items()[0].next_item_dist, Some(2 * W));
    assert!(belt.sanity_check());
    belt
}

#[test]
fn new_belt_is_free_at_both_ends() {
    let belt = Belt::new(7 * W, 3);
    assert!(belt.is_empty());
    assert_eq!(belt.length(), 7 * W);
    assert_eq!(belt.speed(), 3);
    assert_eq!(belt.empty_space_front(), 7 * W);
    assert_eq!(belt.empty_space_back(), 7 * W);
    assert_eq!(belt.item_count(), 0);
    assert!(belt.input_connection().is_none());
    assert!(belt.output_connection().is_none());
    assert!(belt.sanity_check());
}

#[test]
fn belt_shorter_than_a_slot_holds_nothing() {
    let mut belt = Belt::new(W - 1, 1);
    assert!(!belt.add_item(Stack::new(1, 1)));
    assert!(belt.is_empty());
    assert_eq!(belt.remove_item(), None);
    belt.run(10);
    assert_eq!(belt.empty_space_front(), W - 1);
    assert_eq!(belt.empty_space_back(), W - 1);

    let mut none = Belt::new(0, 1);
    assert!(!none.add_item(Stack::new(1, 1)));
    assert_eq!(none.remove_item(), None);
    assert!(none.sanity_check());
}

#[test]
fn belt_of_one_slot_holds_one_stack() {
    let mut belt = Belt::new(W, 1);
    assert!(belt.add_item(Stack::new(4, 9)));
    assert_eq!(belt.empty_space_front(), 0);
    assert_eq!(belt.empty_space_back(), 0);
    assert!(!belt.add_item(Stack::new(4, 9)));
    assert_eq!(belt.peek_front_stack(), Some(Stack::new(4, 9)));
    assert_eq!(belt.remove_item(), Some(Stack::new(4, 9)));
    assert_eq!(belt.empty_space_front(), W);
    assert_eq!(belt.empty_space_back(), W);
}

#[test]
fn nothing_is_lifted_behind_free_space() {
    let mut belt = Belt::new(4 * W, 1);
    assert_eq!(belt.remove_item(), None);
    assert_eq!(belt.peek_front_stack(), None);
    assert!(belt.add_item(Stack::new(1, 1)));
    assert_eq!(belt.remove_item(), None);
    assert_eq!(belt.peek_front_stack(), None);
    assert_eq!(belt.item_count(), 1);
    belt.run(3 * W - 1);
    assert_eq!(belt.empty_space_front(), 1);
    assert_eq!(belt.remove_item(), None);
    belt.run(1);
    assert_eq!(belt.remove_item(), Some(Stack::new(1, 1)));
}

#[test]
fn lifting_the_head_record_frees_its_slot_and_the_gap_behind_it() {
    let mut belt = loaded_belt(1);
    let back = belt.empty_space_back();
    assert_eq!(belt.remove_item(), Some(Stack::new(1, 5)));
    assert_eq!(belt.empty_space_front(), W);
    assert_eq!(belt.items()[0].stack.multiplicity, 1);
    assert!(belt.sanity_check());
    belt.run(W);
    assert_eq!(belt.remove_item(), Some(Stack::new(1, 5)));
    assert_eq!(belt.empty_space_front(), 3 * W);
    assert_eq!(belt.empty_space_back(), back + W);
    assert_eq!(belt.items().len(), 1);
    assert!(belt.items()[0].is_group_head);
    assert!(belt.sanity_check());
}

#[test]
fn every_record_of_a_group_holds_its_size() {
    let mut belt = Belt::new(8 * W, 1);
    for item_type in 1..=4 {
        assert!(belt.add_item(Stack::new(item_type, 1)));
        belt.run(W);
        assert!(belt.sanity_check());
        assert!(groups_are_true(&belt));
    }
    assert_eq!(belt.items().len(), 4);
    for record in belt.items().iter() {
        assert_eq!(record.group_size, 4);
    }
    belt.run(4 * W);
    assert_eq!(belt.remove_item(), Some(Stack::new(1, 1)));
    assert_eq!(belt.items().len(), 3);
    for record in belt.items().iter() {
        assert_eq!(record.group_size, 3);
    }
    assert!(belt.items()[0].is_group_head);
    assert!(!belt.items()[1].is_group_head);
    assert!(belt.items()[2].is_group_tail);
    assert!(groups_are_true(&belt));
    assert!(belt.sanity_check());
}

#[test]
fn equal_stack_against_the_tail_joins_its_record() {
    let mut belt = Belt::new(4 * W, W);
    assert!(belt.add_item(Stack::new(6, 2)));
    belt.run(1);
    assert!(belt.add_item(Stack::new(6, 2)));
    assert_eq!(belt.items().len(), 1);
    assert_eq!(belt.items()[0].stack.multiplicity, 2);
    assert_eq!(belt.item_count(), 2);
    belt.run(1);
    assert!(belt.add_item(Stack::new(6, 3)));
    assert_eq!(belt.items().len(), 2);
    assert_eq!(belt.items()[0].next_item_dist, Some(0));
    assert_eq!(belt.items()[1].group_size, 2);
    assert!(no_equal_neighbours_touch(&belt));
    assert!(belt.sanity_check());
}

#[test]
fn run_on_an_empty_belt_changes_nothing() {
    let mut belt = Belt::new(5 * W, 9);
    for ticks in [0, 1, 7, 1000] {
        assert!(belt.run(ticks).is_none());
        assert!(belt.is_empty());
        assert_eq!(belt.empty_space_front(), 5 * W);
        assert_eq!(belt.empty_space_back(), 5 * W);
        assert_eq!(belt.length(), 5 * W);
        assert_eq!(belt.speed(), 9);
        assert!(belt.sanity_check());
    }
    assert!(belt.remove_while_run(50, None, None).is_empty());
    assert_eq!(belt.empty_space_front(), 5 * W);
    assert_eq!(belt.empty_space_back(), 5 * W);
}

#[test]
fn run_of_no_ticks_changes_nothing() {
    let mut belt = loaded_belt(1);
    let front = belt.empty_space_front();
    let back = belt.empty_space_back();
    belt.run(0);
    assert_eq!(belt.empty_space_front(), front);
    assert_eq!(belt.empty_space_back(), back);
    assert_eq!(belt.items().len(), 2);
    assert_eq!(belt.items()[0].next_item_dist, Some(2 * W));
}

#[test]
fn distance_closes_the_front_space_first_then_the_gaps() {
    let mut belt = Belt::new(10 * W, 1);
    assert!(belt.add_item(Stack::new(1, 1)));
    belt.run(3 * W);
    assert!(belt.add_item(Stack::new(2, 1)));
    assert_eq!(belt.empty_space_front(), 6 * W);
    assert_eq!(belt.items()[0].next_item_dist, Some(2 * W));

    belt.run(6 * W + 50);
    assert_eq!(belt.empty_space_front(), 0);
    assert_eq!(belt.items()[0].next_item_dist, Some(2 * W - 50));
    assert_eq!(belt.empty_space_back(), 6 * W + 50);
    assert_eq!(belt.items()[0].group_size, 1);
    assert!(belt.sanity_check());

    belt.run(2 * W - 50);
    assert_eq!(belt.items()[0].next_item_dist, Some(0));
    assert_eq!(belt.items()[0].group_size, 2);
    assert_eq!(belt.items()[1].group_size, 2);
    assert_eq!(belt.empty_space_back(), 8 * W);
    assert!(belt.sanity_check());

    belt.run(1000);
    assert_eq!(belt.empty_space_back(), 8 * W);
    assert_eq!(belt.empty_space_front(), 0);
}

#[test]
fn stacks_are_taken_while_the_distance_lasts() {
    let mut belt = loaded_belt(1);
    let removed = belt.remove_while_run(5 * W, None, None);
    assert_eq!(removed.len(), 2);
    assert_eq!(removed[0], Stack::new(1, 5));
    assert_eq!(removed[0].multiplicity, 2);
    assert_eq!(removed[1], Stack::new(2, 2));
    assert_eq!(removed[1].multiplicity, 1);
    assert!(belt.is_empty());
    assert_eq!(belt.empty_space_front(), 12 * W);
    assert_eq!(belt.empty_space_back(), 12 * W);
    assert!(belt.sanity_check());
}

#[test]
fn taking_stops_at_a_type_that_the_filter_does_not_list() {
    let mut belt = loaded_belt(1);
    let removed = belt.remove_while_run(12 * W, Some(&[2u16, 9u16][..]), None);
    assert!(removed.is_empty());
    assert_eq!(belt.item_count(), 3);

    let removed = belt.remove_while_run(12 * W, Some(&[1u16][..]), None);
    assert_eq!(removed, vec![Stack::new(1, 5)]);
    assert_eq!(removed[0].multiplicity, 2);
    assert_eq!(belt.item_count(), 1);
    assert_eq!(belt.empty_space_front(), 0);
    assert_eq!(belt.items()[0].stack, Stack::new(2, 2));
    assert!(belt.sanity_check());
}

#[test]
fn taking_stops_once_the_limit_is_reached() {
    let mut belt = Belt::new(6 * W, W);
    for item_type in 1..=4 {
        assert!(belt.add_item(Stack::new(item_type, 1)));
        belt.run(1);
    }
    belt.run(2);
    assert_eq!(belt.empty_space_front(), 0);
    let removed = belt.remove_while_run(4, None, Some(2));
    assert_eq!(removed, vec![Stack::new(1, 1), Stack::new(2, 1)]);
    assert_eq!(belt.item_count(), 2);
    assert!(belt.sanity_check());

    let removed = belt.remove_while_run(4, None, Some(0));
    assert_eq!(removed, vec![Stack::new(3, 1)]);
    assert_eq!(belt.item_count(), 1);
}

#[test]
fn taking_keeps_every_item() {
    let mut belt = loaded_belt(1);
    let before = items_on(&belt);
    let removed = belt.remove_while_run(W, None, None);
    let taken: u64 = removed.iter().map(|s| s.item_count as u64 * s.multiplicity as u64).sum();
    assert_eq!(taken, 5);
    assert_eq!(items_on(&belt) + taken, before);
    assert!(belt.sanity_check());
}

#[test]
fn distance_shorter_than_a_slot_before_a_stack_becomes_free_space() {
    let mut belt = loaded_belt(1);
    let back = belt.empty_space_back();
    let removed = belt.remove_while_run(W / 2, None, None);
    assert!(removed.is_empty());
    assert_eq!(belt.empty_space_front(), W / 2);
    assert_eq!(belt.empty_space_back(), back + W / 2);
    assert_eq!(belt.item_count(), 3);
    assert!(groups_are_true(&belt));
    assert!(!belt.sanity_check());
}

#[test]
fn distance_left_after_part_of_a_record_becomes_free_space() {
    let mut belt = loaded_belt(1);
    let back = belt.empty_space_back();
    let removed = belt.remove_while_run(W + 10, None, None);
    assert_eq!(removed, vec![Stack::new(1, 5)]);
    assert_eq!(removed[0].multiplicity, 1);
    assert_eq!(belt.empty_space_front(), 10);
    assert_eq!(belt.empty_space_back(), back + W + 10);
    assert_eq!(belt.items()[0].stack.multiplicity, 1);
    assert!(!belt.sanity_check());
}

#[test]
fn output_connection_takes_what_reaches_the_head() {
    let mut belt = loaded_belt(W);
    belt.set_output_connection(Some(BeltInputConnection::new(100, None)));
    let before = items_around(&belt);

    belt.run(1);
    assert_eq!(belt.output_connection().unwrap().buffered_item_count(), 5);
    assert_eq!(belt.items()[0].stack.multiplicity, 1);
    assert_eq!(belt.empty_space_front(), 0);
    assert_eq!(items_around(&belt), before);
    assert!(belt.sanity_check());

    belt.run(1);
    assert_eq!(belt.output_connection().unwrap().buffered_item_count(), 10);
    assert_eq!(belt.items().len(), 1);
    assert_eq!(belt.empty_space_front(), 2 * W);
    assert_eq!(items_around(&belt), before);
    assert!(belt.sanity_check());

    belt.run(2);
    assert_eq!(belt.empty_space_front(), 0);
    assert_eq!(belt.output_connection().unwrap().buffered_item_count(), 10);
    belt.run(1);
    assert_eq!(belt.output_connection().unwrap().buffered_item_count(), 10);
    assert_eq!(belt.item_count(), 1);
    assert_eq!(items_around(&belt), before);
    assert!(belt.sanity_check());
}

#[test]
fn output_connection_takes_several_stacks_in_one_move() {
    let mut belt = loaded_belt(W);
    belt.set_output_connection(Some(BeltInputConnection::new(100, None)));
    belt.run(2);
    assert_eq!(belt.output_connection().unwrap().buffered_item_count(), 10);
    assert_eq!(belt.items().len(), 1);
    assert_eq!(belt.empty_space_front(), 2 * W);
    assert!(belt.sanity_check());
}

#[test]
fn full_output_connection_blocks_and_the_belt_packs() {
    let mut belt = loaded_belt(W);
    belt.set_output_connection(Some(BeltInputConnection::new(7, None)));
    let before = items_around(&belt);
    belt.run(3);
    assert_eq!(belt.output_connection().unwrap().buffered_item_count(), 5);
    assert_eq!(belt.items().len(), 2);
    assert_eq!(belt.items()[0].stack.multiplicity, 1);
    assert_eq!(belt.empty_space_front(), 0);
    assert_eq!(belt.items()[0].next_item_dist, Some(0));
    assert_eq!(belt.items()[0].group_size, 2);
    assert_eq!(items_around(&belt), before);
    assert!(groups_are_true(&belt));
    assert!(belt.sanity_check());
}

#[test]
fn output_filter_blocks_the_head() {
    let mut belt = loaded_belt(W);
    belt.set_output_connection(Some(BeltInputConnection::new(100, Some(vec![2]))));
    belt.run(1);
    assert!(belt.output_connection().unwrap().is_empty());
    assert_eq!(belt.item_count(), 3);
    assert_eq!(belt.items()[0].next_item_dist, Some(W));
    assert!(belt.sanity_check());
}

#[test]
fn distance_shorter_than_a_slot_before_the_output_becomes_free_space() {
    let mut belt = loaded_belt(W / 2);
    belt.set_output_connection(Some(BeltInputConnection::new(100, None)));
    let back = belt.empty_space_back();
    belt.run(1);
    assert!(belt.output_connection().unwrap().is_empty());
    assert_eq!(belt.empty_space_front(), W / 2);
    assert_eq!(belt.empty_space_back(), back + W / 2);
    assert!(groups_are_true(&belt));
    assert!(!belt.sanity_check());
}

#[test]
fn input_connection_fills_the_free_slots_at_the_tail() {
    let mut belt = Belt::new(5 * W, W);
    let mut connection = BeltOutputConnection::new(50, 3, None);
    assert_eq!(connection.inc_item_count(9, 7), 0);
    belt.set_input_connection(Some(connection));
    let before = items_around(&belt);

    belt.run(1);
    assert_eq!(belt.items().len(), 2);
    assert_eq!(belt.items()[0].stack, Stack::new(9, 3));
    assert_eq!(belt.items()[0].stack.multiplicity, 2);
    assert_eq!(belt.items()[1].stack, Stack::new(9, 1));
    assert_eq!(belt.items()[1].stack.multiplicity, 1);
    assert_eq!(belt.items()[0].next_item_dist, Some(0));
    assert_eq!(belt.items()[0].group_size, 2);
    assert_eq!(belt.items()[1].group_size, 2);
    assert_eq!(belt.empty_space_front(), 0);
    assert_eq!(belt.empty_space_back(), 2 * W);
    assert!(belt.input_connection().unwrap().is_empty());
    assert_eq!(items_around(&belt), before);
    assert!(groups_are_true(&belt));
    assert!(belt.sanity_check());
}

#[test]
fn input_connection_gives_no_more_than_the_slots() {
    let mut belt = Belt::new(2 * W + 5, W);
    let mut connection = BeltOutputConnection::new(50, 2, None);
    assert_eq!(connection.inc_item_count(9, 9), 0);
    belt.set_input_connection(Some(connection));
    belt.run(1);
    assert_eq!(belt.item_count(), 2);
    assert_eq!(belt.empty_space_back(), 5);
    assert_eq!(belt.input_connection().unwrap().buffered_item_count(), 5);
    assert!(belt.sanity_check());
    belt.run(1);
    assert_eq!(belt.item_count(), 2);
    assert_eq!(belt.input_connection().unwrap().buffered_item_count(), 5);
}

#[test]
fn input_connection_appends_behind_the_tail() {
    let mut belt = Belt::new(6 * W, W);
    assert!(belt.add_item(Stack::new(1, 1)));
    belt.run(2);
    assert_eq!(belt.empty_space_back(), 2 * W);
    let mut connection = BeltOutputConnection::new(50, 4, None);
    assert_eq!(connection.inc_item_count(2, 4), 0);
    belt.set_input_connection(Some(connection));
    belt.run(0);
    assert_eq!(belt.items().len(), 2);
    assert_eq!(belt.items()[0].next_item_dist, Some(0));
    assert_eq!(belt.items()[1].stack, Stack::new(2, 4));
    assert_eq!(belt.empty_space_back(), W);
    assert_eq!(belt.empty_space_front(), 3 * W);
    assert!(groups_are_true(&belt));
    assert!(belt.sanity_check());
}

#[test]
fn connections_can_be_reached_and_changed_in_place() {
    let mut belt = Belt::new(3 * W, W);
    assert!(belt.input_connection_mut().is_none());
    assert!(belt.output_connection_mut().is_none());
    belt.set_input_connection(Some(BeltOutputConnection::new(10, 2, None)));
    belt.set_output_connection(Some(BeltInputConnection::new(10, None)));
    assert_eq!(belt.input_connection_mut().unwrap().inc_item_count(3, 4), 0);
    assert_eq!(belt.input_connection().unwrap().buffered_item_count(), 4);
    assert_eq!(belt.output_connection_mut().unwrap().inc_item_count(3, 1), 0);
    assert_eq!(belt.output_connection().unwrap().buffered_item_count(), 1);
    belt.set_input_connection(None);
    assert!(belt.input_connection().is_none());
    assert!(belt.sanity_check());
}

#[test]
fn a_belt_between_two_connections_keeps_every_item() {
    let mut belt = Belt::new(9 * W, W);
    let mut source = BeltOutputConnection::new(500, 4, None);
    assert_eq!(source.inc_item_count(5, 203), 0);
    belt.set_input_connection(Some(source));
    belt.set_output_connection(Some(BeltInputConnection::new(90, None)));
    let before = items_around(&belt);
    assert_eq!(before, 203);

    for tick in 0..120u32 {
        belt.run(if tick % 5 == 0 { 2 } else { 1 });
        assert_eq!(items_around(&belt), before);
        assert!(belt.sanity_check());
        assert!(groups_are_true(&belt));
        let held = belt.output_connection().unwrap().buffered_item_count();
        assert!(held <= 90);
        if tick % 7 == 0 {
            let taken = 30 - belt.output_connection_mut().unwrap().dec_item_count(30);
            assert_eq!(belt.input_connection_mut().unwrap().inc_item_count(5, taken), 0);
        }
    }
}

#[test]
fn equal_stacks_that_meet_become_one_record() {
    let mut belt = Belt::new(16 * W, 1);
    let kinds = [1u16, 1, 2, 2, 2, 1, 3, 3];
    for kind in kinds {
        assert!(belt.add_item(Stack::new(kind, 1)));
        belt.run(2 * W - 3);
        assert!(no_equal_neighbours_touch(&belt));
        assert!(groups_are_true(&belt));
        assert!(belt.sanity_check());
    }
    belt.run(16 * W);
    assert!(no_equal_neighbours_touch(&belt));
    assert!(groups_are_true(&belt));
    assert!(belt.sanity_check());
    assert_eq!(belt.item_count(), 8);
    let multiplicities: Vec<u32> =
        belt.items().iter().map(|record| record.stack.multiplicity).collect();
    assert_eq!(multiplicities, vec![2, 3, 1, 2]);
    for record in belt.items().iter() {
        assert_eq!(record.group_size, 4);
    }
}

#[test]
fn input_connection_puts_an_equal_stack_in_a_record_of_its_own() {
    let mut belt = Belt::new(6 * W, W);
    assert!(belt.add_item(Stack::new(2, 4)));
    belt.run(2);
    let mut connection = BeltOutputConnection::new(50, 4, None);
    assert_eq!(connection.inc_item_count(2, 4), 0);
    belt.set_input_connection(Some(connection));
    belt.run(0);
    assert_eq!(belt.items().len(), 2);
    assert_eq!(belt.items()[0].stack, belt.items()[1].stack);
    assert_eq!(belt.items()[0].next_item_dist, Some(0));
    assert!(!no_equal_neighbours_touch(&belt));
    assert!(groups_are_true(&belt));
    assert!(belt.sanity_check());
}
