use factory::logistics::{
    BeltConnectionKind, BeltInputConnection, BeltOutputConnection, Connection, OutputBatch, Stack,
};

#[test]
fn new_stack_is_a_single_stack() {
    let stack = Stack::new(7, 12);
    assert_eq!(stack.item_type, 7);
    assert_eq!(stack.item_count, 12);
    assert_eq!(stack.multiplicity, 1);
    assert!(!stack.is_empty());
    assert!(Stack::new(7, 0).is_empty());
}

#[test]
fn stack_equality_ignores_multiplicity() {
    let mut many = Stack::new(3, 4);
    many.multiplicity = 9;
    assert_eq!(many, Stack::new(3, 4));
    assert_ne!(Stack::new(3, 4), Stack::new(3, 5));
    assert_ne!(Stack::new(3, 4), Stack::new(2, 4));
    let copy = many.clone();
    assert_eq!(copy.multiplicity, 9);
}

#[test]
fn split_takes_fewer_items_than_the_stack_has() {
    let mut stack = Stack::new(5, 10);
    stack.multiplicity = 3;
    let part = stack.split(4).expect("a smaller part");
    assert_eq!(part.item_type, 5);
    assert_eq!(part.item_count, 4);
    assert_eq!(part.multiplicity, 1);
    assert_eq!(stack.item_count, 6);
    assert_eq!(stack.multiplicity, 3);
}

#[test]
fn split_refuses_the_whole_stack_or_more() {
    let mut stack = Stack::new(5, 10);
    assert!(stack.split(10).is_none());
    assert!(stack.split(11).is_none());
    assert_eq!(stack.item_count, 10);
    let zero = stack.split(0).expect("nothing is fewer than ten");
    assert_eq!(zero.item_count, 0);
    assert_eq!(stack.item_count, 10);
}

#[test]
fn connection_kinds_follow_the_belt_end() {
    assert_eq!(BeltInputConnection::new(1, None).kind(), BeltConnectionKind::Output);
    assert_eq!(BeltOutputConnection::new(1, 1, None).kind(), BeltConnectionKind::Input);
}

#[test]
fn new_connection_is_empty() {
    let connection = BeltOutputConnection::new(9, 4, Some(vec![2, 3]));
    assert_eq!(connection.item_limit(), 9);
    assert_eq!(connection.output_stack_size(), 4);
    assert_eq!(connection.item_filter(), Some(&[2u16, 3u16][..]));
    assert_eq!(connection.buffered_item_count(), 0);
    assert!(connection.is_empty());
    assert_eq!(connection.current_item_type(), None);
    assert_eq!(connection.max_acceptable_item_count(), 9);
    assert_eq!(BeltInputConnection::new(9, None).item_filter(), None);
}

#[test]
fn acceptance_counts_every_stack_of_a_record() {
    let mut connection = BeltInputConnection::new(10, None);
    let mut three = Stack::new(1, 3);
    three.multiplicity = 3;
    let mut four = Stack::new(1, 3);
    four.multiplicity = 4;

    assert!(!connection.can_accept_stack(&four));
    assert!(!connection.accept_stack(&four));
    assert!(connection.is_empty());

    assert!(connection.can_accept_stack(&three));
    assert!(connection.accept_stack(&three));
    assert_eq!(connection.buffered_item_count(), 9);
    assert_eq!(connection.current_item_type(), Some(1));

    assert!(connection.accept_stack(&Stack::new(1, 1)));
    assert_eq!(connection.buffered_item_count(), 10);
    assert!(!connection.accept_stack(&Stack::new(1, 1)));
    assert_eq!(connection.buffered_item_count(), 10);
}

#[test]
fn empty_stack_is_accepted_and_changes_nothing() {
    let mut connection = BeltInputConnection::new(4, Some(vec![1]));
    assert!(connection.accept_stack(&Stack::new(1, 0)));
    assert!(connection.is_empty());
    assert_eq!(connection.current_item_type(), None);
    assert!(!connection.accept_stack(&Stack::new(2, 0)));

    assert!(connection.accept_stack(&Stack::new(1, 4)));
    assert!(connection.accept_stack(&Stack::new(1, 0)));
    assert_eq!(connection.buffered_item_count(), 4);
}

#[test]
fn additive_fill_returns_what_does_not_fit() {
    let mut connection = BeltOutputConnection::new(5, 1, None);
    assert_eq!(connection.inc_item_count(1, 3), 0);
    assert_eq!(connection.buffered_item_count(), 3);
    assert_eq!(connection.inc_item_count(1, 7), 5);
    assert_eq!(connection.buffered_item_count(), 5);
    assert_eq!(connection.inc_item_count(1, 1), 1);
    assert_eq!(connection.inc_item_count(2, 4), 4);
    assert_eq!(connection.current_item_type(), Some(1));
    assert_eq!(connection.buffered_item_count(), 5);
}

#[test]
fn additive_fill_of_nothing_gives_no_type() {
    let mut connection = BeltOutputConnection::new(5, 1, None);
    assert_eq!(connection.inc_item_count(1, 0), 0);
    assert!(connection.is_empty());
    assert_eq!(connection.inc_item_count(2, 2), 0);
    assert_eq!(connection.current_item_type(), Some(2));

    let mut closed = BeltOutputConnection::new(0, 1, None);
    assert_eq!(closed.inc_item_count(1, 3), 3);
    assert!(closed.is_empty());
}

#[test]
fn additive_fill_respects_the_filter() {
    let mut connection = BeltOutputConnection::new(5, 1, Some(vec![4, 6]));
    assert_eq!(connection.inc_item_count(5, 2), 2);
    assert!(connection.is_empty());
    assert_eq!(connection.inc_item_count(6, 2), 0);
    assert_eq!(connection.current_item_type(), Some(6));
    assert_eq!(connection.inc_item_count(4, 1), 1);
    assert_eq!(connection.buffered_item_count(), 2);
}

#[test]
fn drain_returns_what_was_not_there() {
    let mut connection = BeltInputConnection::new(8, None);
    assert_eq!(connection.dec_item_count(3), 3);
    assert_eq!(connection.inc_item_count(9, 5), 0);
    assert_eq!(connection.dec_item_count(2), 0);
    assert_eq!(connection.buffered_item_count(), 3);
    assert_eq!(connection.current_item_type(), Some(9));
    assert_eq!(connection.dec_item_count(7), 4);
    assert!(connection.is_empty());
    assert_eq!(connection.current_item_type(), None);
    assert_eq!(connection.inc_item_count(1, 1), 0);
    assert_eq!(connection.current_item_type(), Some(1));
}

#[test]
fn room_is_the_limit_less_the_items_held() {
    let mut connection = BeltInputConnection::new(8, None);
    assert_eq!(connection.max_acceptable_item_count(), 8);
    assert!(connection.can_take_item_count(8));
    assert!(!connection.can_take_item_count(9));
    assert_eq!(connection.inc_item_count(1, 5), 0);
    assert_eq!(connection.max_acceptable_item_count(), 3);
    assert!(connection.can_take_item_count(3));
    assert!(!connection.can_take_item_count(4));
    assert!(!connection.can_take_item_count(u16::MAX));
}

#[test]
fn taking_a_type_needs_filter_type_and_room() {
    let mut open = BeltInputConnection::new(2, None);
    assert!(open.can_take_item_type(1));
    assert_eq!(open.inc_item_count(1, 1), 0);
    assert!(open.can_take_item_type(1));
    assert!(!open.can_take_item_type(2));
    assert_eq!(open.inc_item_count(1, 1), 0);
    assert!(!open.can_take_item_type(1));

    let mut filtered = BeltInputConnection::new(2, Some(vec![1, 2]));
    assert!(filtered.can_take_item_type(2));
    assert!(!filtered.can_take_item_type(3));
    assert_eq!(filtered.inc_item_count(1, 1), 0);
    assert!(filtered.can_take_item_type(1));
    assert!(!filtered.can_take_item_type(2));
}

#[test]
fn whole_stacks_that_fit() {
    let mut connection = BeltInputConnection::new(10, Some(vec![1, 2]));
    assert_eq!(connection.max_acceptable_stacks(&Stack::new(1, 3)), 3);
    assert_eq!(connection.max_acceptable_stacks(&Stack::new(1, 11)), 0);
    assert_eq!(connection.max_acceptable_stacks(&Stack::new(3, 1)), 0);
    assert_eq!(connection.max_acceptable_stacks(&Stack::new(1, 0)), u32::MAX);

    assert_eq!(connection.inc_item_count(1, 4), 0);
    assert_eq!(connection.max_acceptable_stacks(&Stack::new(1, 3)), 2);
    assert_eq!(connection.max_acceptable_stacks(&Stack::new(1, 6)), 1);
    assert_eq!(connection.max_acceptable_stacks(&Stack::new(1, 7)), 0);
    assert_eq!(connection.max_acceptable_stacks(&Stack::new(2, 1)), 0);
    assert_eq!(connection.max_acceptable_stacks(&Stack::new(2, 0)), u32::MAX);

    let mut several = Stack::new(1, 1);
    several.multiplicity = 2;
    assert_eq!(connection.max_acceptable_stacks(&several), 0);
}

#[test]
fn what_was_certified_is_accepted() {
    let mut connection = BeltInputConnection::new(23, None);
    assert_eq!(connection.inc_item_count(4, 2), 0);
    let unit = Stack::new(4, 5);
    let fit = connection.max_acceptable_stacks(&unit);
    assert_eq!(fit, 4);
    let mut record = unit.clone();
    record.multiplicity = fit;
    assert!(connection.accept_stack(&record));
    assert_eq!(connection.buffered_item_count(), 22);
    assert_eq!(connection.max_acceptable_stacks(&unit), 0);
}

#[test]
fn filter_can_be_replaced() {
    let mut connection = BeltOutputConnection::new(5, 2, None);
    assert_eq!(connection.inc_item_count(3, 1), 0);
    connection.set_item_filter(Some(vec![3, 4]));
    assert_eq!(connection.item_filter(), Some(&[3u16, 4u16][..]));
    assert_eq!(connection.output_stack_size(), 2);
    assert_eq!(connection.buffered_item_count(), 1);
    assert!(connection.can_take_item_type(3));
    connection.set_item_filter(None);
    assert_eq!(connection.item_filter(), None);
}

#[test]
fn batch_has_full_stacks_then_the_rest() {
    let mut connection = BeltOutputConnection::new(20, 3, None);
    assert_eq!(connection.inc_item_count(8, 7), 0);
    let batch = connection.take_output_batch(5).expect("a batch");
    let full = batch.full_stack.clone().expect("full stacks");
    assert_eq!(full.item_type, 8);
    assert_eq!(full.item_count, 3);
    assert_eq!(full.multiplicity, 2);
    let partial = batch.partial_stack.clone().expect("the rest");
    assert_eq!(partial.item_type, 8);
    assert_eq!(partial.item_count, 1);
    assert_eq!(partial.multiplicity, 1);
    assert_eq!(batch.num_stacks(), 3);
    assert!(connection.is_empty());
}

#[test]
fn batch_is_bounded_by_the_slots() {
    let mut connection = BeltOutputConnection::new(20, 3, None);
    assert_eq!(connection.inc_item_count(8, 10), 0);
    let batch = connection.take_output_batch(2).expect("a batch");
    assert_eq!(batch.full_stack.clone().expect("full stacks").multiplicity, 2);
    assert!(batch.partial_stack.is_none());
    assert_eq!(batch.num_stacks(), 2);
    assert_eq!(connection.buffered_item_count(), 4);

    let batch = connection.take_output_batch(2).expect("a batch");
    assert_eq!(batch.full_stack.clone().expect("full stacks").multiplicity, 1);
    assert_eq!(batch.partial_stack.clone().expect("the rest").item_count, 1);
    assert_eq!(batch.num_stacks(), 2);
    assert!(connection.is_empty());
}

#[test]
fn batch_of_less_than_a_stack_is_the_rest_alone() {
    let mut connection = BeltOutputConnection::new(20, 3, None);
    assert_eq!(connection.inc_item_count(8, 2), 0);
    let batch = connection.take_output_batch(4).expect("a batch");
    assert!(batch.full_stack.is_none());
    assert_eq!(batch.partial_stack.clone().expect("the rest").item_count, 2);
    assert_eq!(batch.num_stacks(), 1);
    assert!(connection.is_empty());
}

#[test]
fn no_batch_without_slots_or_items() {
    let mut connection = BeltOutputConnection::new(20, 3, None);
    assert!(connection.take_output_batch(3).is_none());
    assert_eq!(connection.inc_item_count(8, 2), 0);
    assert!(connection.take_output_batch(0).is_none());
    assert_eq!(connection.buffered_item_count(), 2);
}

#[test]
fn stacks_of_a_batch_are_counted() {
    let mut full = Stack::new(1, 4);
    full.multiplicity = 6;
    let both = OutputBatch { full_stack: Some(full.clone()), partial_stack: Some(Stack::new(1, 2)) };
    assert_eq!(both.num_stacks(), 7);
    let only_full = OutputBatch { full_stack: Some(full), partial_stack: None };
    assert_eq!(only_full.num_stacks(), 6);
    let nothing = OutputBatch { full_stack: None, partial_stack: None };
    assert_eq!(nothing.num_stacks(), 0);
}

#[test]
fn peeking_leaves_the_buffer_as_it_is() {
    let mut connection = BeltOutputConnection::new(9, 4, None);
    assert_eq!(connection.peek_next_output(), None);
    assert_eq!(connection.take_next_output(), None);
    assert_eq!(connection.inc_item_count(2, 6), 0);

    let peeked = connection.peek_next_output().expect("a stack");
    assert_eq!(peeked.item_type, 2);
    assert_eq!(peeked.item_count, 4);
    assert_eq!(peeked.multiplicity, 1);
    assert_eq!(connection.buffered_item_count(), 6);

    let taken = connection.take_next_output().expect("a stack");
    assert_eq!(taken.item_count, 4);
    assert_eq!(connection.buffered_item_count(), 2);
    assert_eq!(connection.peek_next_output().expect("a stack").item_count, 2);
    assert_eq!(connection.take_next_output().expect("a stack").item_count, 2);
    assert!(connection.is_empty());
}

#[test]
fn buffer_never_holds_more_than_its_limit() {
    let mut connection = BeltInputConnection::new(7, Some(vec![1, 2, 3]));
    let mut step: u16 = 0;
    while step < 200 {
        let item_type = step % 5;
        let amount = (step * 7) % 11;
        match step % 4 {
            0 => {
                let _ = connection.inc_item_count(item_type, amount);
            }
            1 => {
                let mut stack = Stack::new(item_type, amount % 4);
                stack.multiplicity = (step % 3) as u32 + 1;
                let _ = connection.accept_stack(&stack);
            }
            2 => {
                let _ = connection.dec_item_count(amount % 5);
            }
            _ => {
                let _ = connection.dec_item_count(1);
            }
        }
        assert!(connection.buffered_item_count() <= connection.item_limit());
        assert_eq!(connection.is_empty(), connection.buffered_item_count() == 0);
        if let Some(held) = connection.current_item_type() {
            assert!(held == 1 || held == 2 || held == 3);
        }
        step += 1;
    }
}
