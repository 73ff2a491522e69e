use linked_stack::List;

fn drain(list: &mut List) -> Vec<i32> {
    let mut out = Vec::new();
    while let Some(value) = list.pop() {
        out.push(value);
    }
    out
}

#[test]
fn basics() {
    let mut list = List::new();

    assert_eq!(list.pop(), None);

    list.push(1);
    list.push(2);
    list.push(3);

    assert_eq!(list.pop(), Some(3));
    assert_eq!(list.pop(), Some(2));

    list.push(4);
    list.push(5);

    assert_eq!(list.pop(), Some(5));
    assert_eq!(list.pop(), Some(4));

    assert_eq!(list.pop(), Some(1));
    assert_eq!(list.pop(), None);
}

#[test]
fn new_stack_is_empty() {
    let mut list = List::new();
    assert_eq!(list.pop(), None);
}

#[test]
fn pop_on_empty_is_no_value_and_stays_empty() {
    let mut list = List::new();
    assert_eq!(list.pop(), None);
    assert_eq!(list.pop(), None);
    assert_eq!(list.pop(), None);

    list.push(7);
    assert_eq!(list.pop(), Some(7));
    assert_eq!(list.pop(), None);
    assert_eq!(list.pop(), None);
}

#[test]
fn single_push_then_pop() {
    let mut list = List::new();
    list.push(42);
    assert_eq!(list.pop(), Some(42));
    assert_eq!(list.pop(), None);
}

#[test]
fn pops_come_in_reverse_push_order() {
    let values = vec![10, -3, 0, 99, 10, 7, -3];
    let mut list = List::new();
    for &value in &values {
        list.push(value);
    }
    let mut expected = values.clone();
    expected.reverse();
    assert_eq!(drain(&mut list), expected);
    assert_eq!(list.pop(), None);
}

#[test]
fn pops_come_in_reverse_push_order_long_run() {
    let mut list = List::new();
    for value in 0..1000 {
        list.push(value);
    }
    for value in (0..1000).rev() {
        assert_eq!(list.pop(), Some(value));
    }
    assert_eq!(list.pop(), None);
}

#[test]
fn push_then_pop_restores_the_stack() {
    let mut with_round_trip = List::new();
    let mut without = List::new();
    for value in [1, 2, 3] {
        with_round_trip.push(value);
        without.push(value);
    }

    with_round_trip.push(100);
    assert_eq!(with_round_trip.pop(), Some(100));

    assert_eq!(drain(&mut with_round_trip), vec![3, 2, 1]);
    assert_eq!(drain(&mut without), vec![3, 2, 1]);
}

#[test]
fn push_then_pop_on_empty_leaves_it_empty() {
    let mut list = List::new();
    list.push(5);
    assert_eq!(list.pop(), Some(5));
    assert_eq!(list.pop(), None);
}

#[test]
fn interleaved_calls_pop_the_latest_unpopped_push() {
    let mut list = List::new();
    list.push(1);
    list.push(2);
    assert_eq!(list.pop(), Some(2));
    list.push(3);
    list.push(4);
    list.push(5);
    assert_eq!(list.pop(), Some(5));
    assert_eq!(list.pop(), Some(4));
    list.push(6);
    assert_eq!(list.pop(), Some(6));
    assert_eq!(list.pop(), Some(3));
    assert_eq!(list.pop(), Some(1));
    assert_eq!(list.pop(), None);
}

#[test]
fn balanced_calls_above_a_push_leave_it_on_top() {
    let mut list = List::new();
    list.push(-1);
    list.push(8);
    // Every value pushed from here on is popped again before the last pop.
    list.push(20);
    list.push(21);
    assert_eq!(list.pop(), Some(21));
    list.push(22);
    assert_eq!(list.pop(), Some(22));
    assert_eq!(list.pop(), Some(20));
    assert_eq!(list.pop(), Some(8));
    assert_eq!(drain(&mut list), vec![-1]);
}

#[test]
fn matches_a_vec_used_as_a_stack() {
    let mut list = List::new();
    let mut mirror: Vec<i32> = Vec::new();
    let mut seed: u32 = 12345;
    for _ in 0..5000 {
        seed = seed.wrapping_mul(1_103_515_245).wrapping_add(12_345);
        let value = (seed >> 8) as i32;
        if (seed >> 16) % 3 == 0 {
            assert_eq!(list.pop(), mirror.pop());
        } else {
            list.push(value);
            mirror.push(value);
        }
    }
    while let Some(expected) = mirror.pop() {
        assert_eq!(list.pop(), Some(expected));
    }
    assert_eq!(list.pop(), None);
}

#[test]
fn holds_extreme_and_repeated_values() {
    let mut list = List::new();
    list.push(i32::MIN);
    list.push(i32::MAX);
    list.push(0);
    list.push(0);
    list.push(-1);
    assert_eq!(list.pop(), Some(-1));
    assert_eq!(list.pop(), Some(0));
    assert_eq!(list.pop(), Some(0));
    assert_eq!(list.pop(), Some(i32::MAX));
    assert_eq!(list.pop(), Some(i32::MIN));
    assert_eq!(list.pop(), None);
}

#[test]
fn dropping_an_empty_stack() {
    let list = List::new();
    drop(list);
}

#[test]
fn dropping_a_long_stack_does_not_exhaust_the_call_stack() {
    let mut list = List::new();
    for value in 0..1_000_000 {
        list.push(value);
    }
    drop(list);
}

#[test]
fn dropping_a_long_stack_after_some_pops() {
    let mut list = List::new();
    for value in 0..200_000 {
        list.push(value);
    }
    for value in (150_000..200_000).rev() {
        assert_eq!(list.pop(), Some(value));
    }
    drop(list);
}

#[test]
fn dropping_a_long_stack_at_scope_end() {
    let count = {
        let mut list = List::new();
        let mut count: u32 = 0;
        for value in 0..300_000 {
            list.push(value);
            count += 1;
        }
        assert_eq!(list.pop(), Some(299_999));
        count
    };
    assert_eq!(count, 300_000);
}
