use leapfrog::cursor::LinearIterator;
use leapfrog::join::LeapFrogJoin;

fn tab0() -> Vec<i64> {
    vec![]
}

fn tab1() -> Vec<i64> {
    vec![0, 1, 3, 4, 5, 6, 7, 8, 9, 11]
}

fn tab2() -> Vec<i64> {
    vec![0, 2, 6, 7, 8, 9, 11]
}

fn tab3() -> Vec<i64> {
    vec![2, 4, 5, 8, 10]
}

#[test]
fn test_linear_iterator_init0() {
    let tab0 = tab0();
    let iter = LinearIterator::new(&tab0);
    assert!(iter.at_end());
}

#[test]
fn test_linear_iterator_init1() {
    let tab1 = tab1();
    let iter = LinearIterator::new(&tab1);
    assert!(!iter.at_end());
    assert_eq!(iter.key(), 0);
}

#[test]
fn test_linear_iterator_init2() {
    let tab2 = tab2();
    let iter = LinearIterator::new(&tab2);
    assert!(!iter.at_end());
    assert_eq!(iter.key(), 0);
}

#[test]
fn test_linear_iterator_init3() {
    let tab3 = tab3();
    let iter = LinearIterator::new(&tab3);
    assert!(!iter.at_end());
    assert_eq!(iter.key(), 2);
}

#[test]
fn test_linear_iterator_next1() {
    let tab1 = tab1();
    let mut iter = LinearIterator::new(&tab1);
    iter.next();
    assert!(!iter.at_end());
    assert_eq!(iter.key(), 1);
}

#[test]
fn test_linear_iterator_next2() {
    let tab2 = tab2();
    let mut iter = LinearIterator::new(&tab2);
    iter.next();
    assert!(!iter.at_end());
    assert_eq!(iter.key(), 2);
}

#[test]
fn test_linear_iterator_next3() {
    let tab3 = tab3();
    let mut iter = LinearIterator::new(&tab3);
    iter.next();
    assert!(!iter.at_end());
    assert_eq!(iter.key(), 4);
}

#[test]
fn test_linear_iterator_seek1() {
    let tab1 = tab1();
    let mut iter = LinearIterator::new(&tab1);
    iter.seek(2);
    assert!(!iter.at_end());
    assert_eq!(iter.key(), 3);
    iter.seek(3);
    assert!(!iter.at_end());
    assert_eq!(iter.key(), 3);
    iter.seek(8);
    assert!(!iter.at_end());
    assert_eq!(iter.key(), 8);
    iter.seek(10);
    assert!(!iter.at_end());
    assert_eq!(iter.key(), 11);
    iter.seek(12);
    assert!(iter.at_end());
}

#[test]
fn test_linear_iterator_seek2() {
    let tab2 = tab2();
    let mut iter = LinearIterator::new(&tab2);
    iter.seek(1);
    assert!(!iter.at_end());
    assert_eq!(iter.key(), 2);
    iter.seek(4);
    assert!(!iter.at_end());
    assert_eq!(iter.key(), 6);
    iter.seek(8);
    assert!(!iter.at_end());
    assert_eq!(iter.key(), 8);
    iter.seek(10);
    assert!(!iter.at_end());
    assert_eq!(iter.key(), 11);
    iter.seek(12);
    assert!(iter.at_end());
}

#[test]
fn test_leapfrog_join_init2() {
    let tab1 = tab1();
    let tab2 = tab2();
    let mut join = LeapFrogJoin::new(vec![&tab1, &tab2]);
    assert!(!join.at_end());
    for expected in [0, 6, 7, 8, 9, 11] {
        assert_eq!(join.key(), expected);
        join.next();
    }
    assert!(join.at_end());
}

#[test]
fn test_leapfrog_join_init3() {
    let tab1 = tab1();
    let tab2 = tab2();
    let tab3 = tab3();
    let mut join = LeapFrogJoin::new(vec![&tab1, &tab2, &tab3]);
    assert!(!join.at_end());
    assert_eq!(join.key(), 8);
    join.next();
    assert!(join.at_end());
}

#[test]
fn test_cursor_key_monotone_over_mixed_calls() {
    let keys: Vec<i64> = vec![1, 2, 4, 4, 4, 7, 9];
    let mut iter = LinearIterator::new(&keys);
    let mut last = iter.key();
    iter.next();
    while !iter.at_end() {
        let k = iter.key();
        assert!(k >= last);
        last = k;
        if k < 7 {
            iter.seek(k + 2);
        } else {
            iter.next();
        }
    }
}

#[test]
fn test_cursor_seek_lands_on_first_duplicate() {
    let keys: Vec<i64> = vec![1, 3, 3, 3, 5];
    let mut iter = LinearIterator::new(&keys);
    iter.seek(3);
    assert!(!iter.at_end());
    assert_eq!(iter.key(), 3);
    iter.next();
    assert!(!iter.at_end());
    assert_eq!(iter.key(), 3);
}

#[test]
fn test_cursor_at_end_stays() {
    let keys: Vec<i64> = vec![5];
    let mut iter = LinearIterator::new(&keys);
    iter.next();
    assert!(iter.at_end());
    assert!(iter.at_end());
}

#[test]
fn test_cursor_order_puts_exhausted_last() {
    let a: Vec<i64> = vec![1];
    let b: Vec<i64> = vec![2];
    let ia = LinearIterator::new(&a);
    let ib = LinearIterator::new(&b);
    assert!(ia.le(&ib));
    assert!(!ib.le(&ia));
    let mut ic = LinearIterator::new(&a);
    ic.next();
    assert!(!ic.le(&ia));
    assert!(ia.le(&ic));
    let mut id = LinearIterator::new(&b);
    id.next();
    assert!(ic.le(&id));
    assert!(id.le(&ic));
}

#[test]
fn test_join_with_empty_input_is_exhausted() {
    let tab0 = tab0();
    let tab1 = tab1();
    let tab2 = tab2();
    let join = LeapFrogJoin::new(vec![&tab1, &tab0, &tab2]);
    assert!(join.at_end());
    assert!(join.at_end());
}

#[test]
fn test_join_with_no_input_is_exhausted() {
    let join = LeapFrogJoin::new(vec![]);
    assert!(join.at_end());
}

#[test]
fn test_join_single_sequence_yields_it_unchanged() {
    let tab2 = tab2();
    let mut join = LeapFrogJoin::new(vec![&tab2]);
    let mut produced: Vec<i64> = Vec::new();
    while !join.at_end() {
        produced.push(join.key());
        join.next();
    }
    assert_eq!(produced, tab2);
}

#[test]
fn test_join_seek_skips_to_common_key() {
    let tab1 = tab1();
    let tab2 = tab2();
    let mut join = LeapFrogJoin::new(vec![&tab1, &tab2]);
    assert_eq!(join.key(), 0);
    join.seek(7);
    assert!(!join.at_end());
    assert_eq!(join.key(), 7);
    join.seek(7);
    assert!(!join.at_end());
    assert_eq!(join.key(), 7);
    join.seek(10);
    assert!(!join.at_end());
    assert_eq!(join.key(), 11);
    join.seek(12);
    assert!(join.at_end());
}

#[test]
fn test_join_keys_come_from_every_input() {
    let tab1 = tab1();
    let tab2 = tab2();
    let tab3 = tab3();
    let mut join = LeapFrogJoin::new(vec![&tab1, &tab2, &tab3]);
    while !join.at_end() {
        let k = join.key();
        assert!(tab1.contains(&k));
        assert!(tab2.contains(&k));
        assert!(tab3.contains(&k));
        join.next();
    }
}

#[test]
fn test_join_produces_whole_intersection_in_order() {
    let tab1 = tab1();
    let tab2 = tab2();
    let mut produced: Vec<i64> = Vec::new();
    let mut join = LeapFrogJoin::new(vec![&tab2, &tab1]);
    while !join.at_end() {
        produced.push(join.key());
        join.next();
    }
    let mut expected: Vec<i64> = Vec::new();
    for k in &tab1 {
        if tab2.contains(k) {
            expected.push(*k);
        }
    }
    assert_eq!(produced, expected);
}
