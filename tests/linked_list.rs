use data_structures::linked_list::List;

#[test]
fn test_new_list() {
    let list: List<i32> = List::new();
    assert_eq!(list.get_list_length(), 0);
    assert!(list.peak_elem().is_none());
    assert!(list.last_elem().is_none());
}

#[test]
fn test_insert_at_head() {
    let mut list = List::new();
    list.insert_at_head(10);
    list.insert_at_head(20);
    list.insert_at_head(30);
    assert_eq!(list.get_list_length(), 3);
    assert_eq!(list.pop_at_head(), Some(30));
    assert_eq!(list.pop_at_head(), Some(20));
    assert_eq!(list.pop_at_head(), Some(10));
}

#[test]
fn test_insert_at_tail() {
    let mut list = List::new();
    list.insert_at_tail(1);
    list.insert_at_tail(2);
    list.insert_at_tail(3);
    assert_eq!(list.get_list_length(), 3);
    assert_eq!(list.pop_at_tail(), Some(3));
    assert_eq!(list.pop_at_tail(), Some(2));
    assert_eq!(list.pop_at_tail(), Some(1));
}

#[test]
fn test_insert_at_position() {
    let mut list = List::new();
    list.insert_at_position(1, 0);
    list.insert_at_position(3, 1);
    list.insert_at_position(2, 1);
    list.insert_at_position(0, 0);
    assert_eq!(list.get_list_length(), 4);
    assert_eq!(list.pop_at_head(), Some(0));
    assert_eq!(list.pop_at_head(), Some(1));
    assert_eq!(list.pop_at_head(), Some(2));
    assert_eq!(list.pop_at_head(), Some(3));
}

#[test]
fn test_pop_at_head() {
    let mut list = List::new();
    list.insert_at_head(5);
    assert_eq!(list.pop_at_head(), Some(5));
    assert_eq!(list.pop_at_head(), None);
}

#[test]
fn test_pop_at_tail() {
    let mut list = List::new();
    list.insert_at_tail(5);
    assert_eq!(list.pop_at_tail(), Some(5));
    assert_eq!(list.pop_at_tail(), None);
}

#[test]
fn test_peak_elem() {
    let mut list = List::new();
    assert!(list.peak_elem().is_none());
    list.insert_at_head(42);
    assert_eq!(list.peak_elem().map(|v| *v), Some(42));
}

#[test]
fn test_last_elem() {
    let mut list = List::new();
    assert!(list.last_elem().is_none());
    list.insert_at_tail(99);
    assert_eq!(list.last_elem().map(|v| *v), Some(99));
}

#[test]
fn test_iter() {
    let mut list = List::new();
    list.insert_at_tail(1);
    list.insert_at_tail(2);
    list.insert_at_tail(3);
    let mut iter = list.iter();
    assert_eq!(iter.next(), Some(1));
    assert_eq!(iter.next(), Some(2));
    assert_eq!(iter.next(), Some(3));
    assert_eq!(iter.next(), None);
}

#[test]
fn test_pop_at_position() {
    let mut list = List::new();

    assert_eq!(list.pop_at_position(0), None);

    list.insert_at_tail(10);
    list.insert_at_tail(20);
    list.insert_at_tail(30);
    list.insert_at_tail(40);
    list.insert_at_tail(50);

    assert_eq!(list.pop_at_position(2), Some(30));

    assert_eq!(list.pop_at_position(0), Some(10));

    assert_eq!(list.pop_at_position(2), Some(50));

    assert_eq!(list.get_list_length(), 2);
    assert_eq!(list.pop_at_head(), Some(20));
    assert_eq!(list.pop_at_head(), Some(40));

    assert_eq!(list.pop_at_head(), None);
}

fn drain_head(list: &mut List<i32>) -> Vec<i32> {
    let mut out = Vec::new();
    while let Some(v) = list.pop_at_head() {
        out.push(v);
    }
    out
}

#[test]
fn head_inserts_pop_last_first() {
    let mut list = List::new();
    for v in [4, 8, 15, 16, 23, 42] {
        list.insert_at_head(v);
    }
    assert_eq!(drain_head(&mut list), vec![42, 23, 16, 15, 8, 4]);
}

#[test]
fn tail_inserts_pop_at_tail_last_first() {
    let mut list = List::new();
    for v in [7, 7, 3, 9] {
        list.insert_at_tail(v);
    }
    let mut out = Vec::new();
    while let Some(v) = list.pop_at_tail() {
        out.push(v);
    }
    assert_eq!(out, vec![9, 3, 7, 7]);
    assert_eq!(list.get_list_length(), 0);
}

#[test]
fn length_matches_drain_after_mixed_operations() {
    let mut list = List::new();
    list.insert_at_tail(1);
    list.insert_at_head(2);
    list.insert_at_position(3, 1);
    list.insert_at_tail(4);
    assert_eq!(list.pop_at_tail(), Some(4));
    list.insert_at_head(5);
    assert_eq!(list.pop_at_position(1), Some(2));
    list.insert_at_tail(6);
    let length = list.get_list_length();
    assert_eq!(length, 4);
    let drained = drain_head(&mut list);
    assert_eq!(drained.len() as i32, length);
    assert_eq!(drained, vec![5, 3, 1, 6]);
}

#[test]
fn insert_at_position_clamps_to_the_ends() {
    let mut list = List::new();
    list.insert_at_position(2, 5);
    list.insert_at_position(1, -3);
    list.insert_at_position(3, 2);
    list.insert_at_position(9, 100);
    list.insert_at_position(0, i32::MIN);
    assert_eq!(list.peak_elem().map(|v| *v), Some(0));
    assert_eq!(list.last_elem().map(|v| *v), Some(9));
    assert_eq!(drain_head(&mut list), vec![0, 1, 2, 3, 9]);
}

#[test]
fn insert_at_position_in_the_middle() {
    let mut list = List::new();
    for v in [10, 20, 30] {
        list.insert_at_tail(v);
    }
    list.insert_at_position(25, 2);
    list.insert_at_position(15, 1);
    assert_eq!(drain_head(&mut list), vec![10, 15, 20, 25, 30]);
}

#[test]
fn peeking_changes_nothing() {
    let mut list = List::new();
    list.insert_at_tail(1);
    list.insert_at_tail(2);
    assert_eq!(list.peak_elem().map(|v| *v), Some(1));
    assert_eq!(list.last_elem().map(|v| *v), Some(2));
    assert_eq!(list.peak_elem().map(|v| *v), Some(1));
    assert_eq!(list.get_list_length(), 2);
    assert_eq!(drain_head(&mut list), vec![1, 2]);
}

#[test]
fn pops_on_empty_list_are_absent() {
    let mut list: List<i32> = List::new();
    assert_eq!(list.pop_at_head(), None);
    assert_eq!(list.pop_at_tail(), None);
    assert_eq!(list.pop_at_position(0), None);
    assert_eq!(list.pop_at_position(3), None);
    assert_eq!(list.pop_at_position(-1), None);
    assert_eq!(list.get_list_length(), 0);
}

#[test]
fn sole_element_pops_at_any_position() {
    for position in [-4, 0, 1, 7] {
        let mut list = List::new();
        list.insert_at_tail(11);
        assert_eq!(list.pop_at_position(position), Some(11));
        assert!(list.peak_elem().is_none());
        assert!(list.last_elem().is_none());
        assert_eq!(list.get_list_length(), 0);
    }
    let mut list = List::new();
    list.insert_at_head(12);
    assert_eq!(list.pop_at_tail(), Some(12));
    assert!(list.peak_elem().is_none());
    assert!(list.last_elem().is_none());
}

#[test]
fn pop_at_position_out_of_range_is_absent() {
    let mut list = List::new();
    for v in [1, 2, 3] {
        list.insert_at_tail(v);
    }
    assert_eq!(list.pop_at_position(3), None);
    assert_eq!(list.pop_at_position(-1), None);
    assert_eq!(list.pop_at_position(2), Some(3));
    assert_eq!(list.last_elem().map(|v| *v), Some(2));
    list.insert_at_tail(4);
    assert_eq!(drain_head(&mut list), vec![1, 2, 4]);
}

#[test]
fn duplicate_values_keep_head_and_tail_apart() {
    let mut list = List::new();
    list.insert_at_tail(5);
    list.insert_at_tail(5);
    assert_eq!(list.pop_at_tail(), Some(5));
    assert_eq!(list.get_list_length(), 1);
    assert_eq!(list.pop_at_position(1), Some(5));
    assert_eq!(list.get_list_length(), 0);
}

#[test]
fn freed_slots_are_reused_in_order() {
    let mut list = List::new();
    for v in 0..6 {
        list.insert_at_tail(v);
    }
    assert_eq!(list.pop_at_position(1), Some(1));
    assert_eq!(list.pop_at_position(3), Some(4));
    list.insert_at_head(10);
    list.insert_at_position(11, 2);
    let mut iter = list.iter();
    let mut seen = Vec::new();
    while let Some(v) = iter.next() {
        seen.push(v);
    }
    assert_eq!(seen, vec![10, 0, 11, 2, 3, 5]);
}
