use factory::logistics::round_robin::deal;

/// Hands out items one at a time: each goes to the first place at or behind
/// the cursor that can still take one, and the cursor goes behind that place.
fn deal_one_by_one(caps: &mut Vec<u16>, cursor: &mut usize, count: u64) -> u64 {
    let len = caps.len();
    let mut left = count;
    while left > 0 {
        let mut placed = false;
        for offset in 0..len {
            let index = (*cursor + offset) % len;
            if caps[index] > 0 {
                caps[index] -= 1;
                *cursor = (index + 1) % len;
                placed = true;
                break;
            }
        }
        if !placed {
            break;
        }
        left -= 1;
    }
    left
}

fn check_against_one_by_one(caps: &[u16], cursor: usize, count: u64) {
    let mut fast = caps.to_vec();
    let mut fast_cursor = cursor;
    let fast_left = deal(&mut fast, &mut fast_cursor, count);

    let mut slow = caps.to_vec();
    let mut slow_cursor = cursor;
    let slow_left = deal_one_by_one(&mut slow, &mut slow_cursor, count);

    assert_eq!(fast, slow, "caps {:?} cursor {} count {}", caps, cursor, count);
    assert_eq!(fast_cursor, slow_cursor, "caps {:?} cursor {} count {}", caps, cursor, count);
    assert_eq!(fast_left, slow_left, "caps {:?} cursor {} count {}", caps, cursor, count);
}

#[test]
fn whole_laps_give_what_one_item_at_a_time_gives() {
    for len in 1..=4usize {
        let combinations = 4usize.pow(len as u32);
        for code in 0..combinations {
            let mut caps = Vec::new();
            let mut rest = code;
            for _ in 0..len {
                caps.push((rest % 4) as u16);
                rest /= 4;
            }
            for cursor in 0..len {
                for count in 0..=14u64 {
                    check_against_one_by_one(&caps, cursor, count);
                }
            }
        }
    }
}

#[test]
fn whole_laps_of_large_amounts_give_what_one_item_at_a_time_gives() {
    check_against_one_by_one(&[220, 180], 0, 200);
    check_against_one_by_one(&[220, 180], 1, 399);
    check_against_one_by_one(&[99, 79, 0, 300], 2, 400);
    check_against_one_by_one(&[1, 1000, 1, 1000, 7], 3, 1500);
    check_against_one_by_one(&[65535, 65535, 65535], 1, 150_000);
    check_against_one_by_one(&[65535, 1], 0, 70_000);
}

#[test]
fn ten_items_to_three_places() {
    let mut caps = vec![50u16, 50, 50];
    let mut cursor = 0usize;
    assert_eq!(deal(&mut caps, &mut cursor, 10), 0);
    assert_eq!(caps, vec![46, 47, 47]);
    assert_eq!(cursor, 1);

    assert_eq!(deal(&mut caps, &mut cursor, 2), 0);
    assert_eq!(caps, vec![46, 46, 46]);
    assert_eq!(cursor, 0);
}

#[test]
fn a_place_that_takes_nothing_is_passed_over() {
    let mut caps = vec![2u16, 0, 5];
    let mut cursor = 1usize;
    assert_eq!(deal(&mut caps, &mut cursor, 5), 0);
    assert_eq!(caps, vec![0, 0, 2]);
    assert_eq!(cursor, 0);
}

#[test]
fn items_are_left_when_every_place_is_full() {
    let mut caps = vec![2u16, 1, 3];
    let mut cursor = 2usize;
    assert_eq!(deal(&mut caps, &mut cursor, 9), 3);
    assert_eq!(caps, vec![0, 0, 0]);
    assert_eq!(cursor, 0);

    assert_eq!(deal(&mut caps, &mut cursor, 4), 4);
    assert_eq!(cursor, 0);
}

#[test]
fn nothing_to_hand_out_and_nowhere_to_put_it() {
    let mut caps = vec![3u16, 3];
    let mut cursor = 1usize;
    assert_eq!(deal(&mut caps, &mut cursor, 0), 0);
    assert_eq!(caps, vec![3, 3]);
    assert_eq!(cursor, 1);

    let mut none: Vec<u16> = Vec::new();
    let mut at = 0usize;
    assert_eq!(deal(&mut none, &mut at, 6), 6);
    assert_eq!(at, 0);
}

#[test]
fn shares_differ_by_one_at_most_where_every_place_has_room() {
    for places in 1..=6usize {
        for count in 0..=40u64 {
            for cursor in 0..places {
                let mut caps = vec![100u16; places];
                let mut at = cursor;
                assert_eq!(deal(&mut caps, &mut at, count), 0);
                let shares: Vec<u64> = caps.iter().map(|left| 100 - *left as u64).collect();
                let low = count / places as u64;
                for share in shares.iter() {
                    assert!(*share == low || *share == low + 1);
                }
                assert_eq!(shares.iter().sum::<u64>(), count);
            }
        }
    }
}
