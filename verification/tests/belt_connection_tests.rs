use factory::logistics::{BeltInputConnection, BeltOutputConnection, Connection, Stack};

fn sample_stack(item_type: u16, count: u16) -> Stack {
    Stack::new(item_type, count)
}

#[test]
fn accept_stack_respects_limit_and_type_for_output() {
    let mut connection = BeltInputConnection::new(10, None);

    let stack_a = sample_stack(1, 6);
    let stack_a_small = sample_stack(1, 4);
    let stack_b = sample_stack(2, 1);

    assert!(connection.accept_stack(&stack_a));
    assert_eq!(connection.buffered_item_count(), 6);

    assert!(connection.accept_stack(&stack_a_small));
    assert_eq!(connection.buffered_item_count(), 10);

    assert!(!connection.accept_stack(&sample_stack(1, 1)));
    assert!(!connection.accept_stack(&stack_b));
}

#[test]
fn item_filter_blocks_disallowed_items_for_input() {
    let mut connection = BeltOutputConnection::new(5, 3, Some(vec![1]));

    assert!(connection.accept_stack(&sample_stack(1, 2)));
    assert_eq!(connection.buffered_item_count(), 2);
    assert!(!connection.accept_stack(&sample_stack(2, 1)));
}

#[test]
fn taking_output_consumes_items() {
    let mut connection = BeltOutputConnection::new(6, 2, None);
    assert!(connection.accept_stack(&sample_stack(3, 5)));

    let first = connection.take_next_output().expect("stack available");
    assert_eq!(first.item_type, 3);
    assert_eq!(first.item_count, 2);
    assert_eq!(connection.buffered_item_count(), 3);

    let second = connection.take_next_output().expect("stack available");
    assert_eq!(second.item_count, 2);
    assert_eq!(connection.buffered_item_count(), 1);

    let third = connection.take_next_output().expect("stack available");
    assert_eq!(third.item_count, 1);
    assert!(connection.is_empty());
}
