use wtx::collection::{Deque, ExpansionTy};

fn slices(deque: &Deque<i32>) -> (Vec<i32>, Vec<i32>) {
    deque.as_slices()
}

#[test]
fn as_slices() {
    assert_eq!(slices(&no_wrapping_00()), (vec![], vec![]));
    assert_eq!(slices(&no_wrapping_11()), (vec![], vec![]));

    assert_eq!(slices(&no_wrapping_01()), (vec![1], vec![]));
    assert_eq!(slices(&no_wrapping_02()), (vec![1, 2], vec![]));
    assert_eq!(slices(&no_wrapping_36()), (vec![4, 5, 6], vec![]));

    assert_eq!(slices(&wrapping_00()), (vec![1, 2, 3, 4, 5, 6, 7, 8], vec![]));
    assert_eq!(slices(&wrapping_22()), (vec![1, 2, 3, 4, 5, 6], vec![7, 8]));
    assert_eq!(slices(&wrapping_77()), (vec![1], vec![2, 3, 4, 5, 6, 7, 8]));

    assert_eq!(slices(&wrapping_60()), (vec![7, 8], vec![]));
    assert_eq!(slices(&wrapping_64()), (vec![1, 2], vec![3, 4, 5, 6]));
    assert_eq!(slices(&wrapping_70()), (vec![1], vec![]));
    assert_eq!(slices(&wrapping_71()), (vec![1], vec![2]));
}

#[test]
fn clear() {
    let mut deque = Deque::with_capacity(1).unwrap();
    assert_eq!(deque.len(), 0);
    deque.push_front(1).unwrap();
    assert_eq!(deque.len(), 1);
    deque.clear();
    assert_eq!(deque.len(), 0);
}

#[test]
fn get() {
    let mut deque = Deque::with_capacity(1).unwrap();
    assert_eq!(deque.get(0), None);
    assert_eq!(deque.get_mut(0), None);
    deque.push_front(1).unwrap();
    assert_eq!(deque.get(0), Some(&1i32));
    assert_eq!(deque.get_mut(0), Some(&mut 1i32));
}

#[test]
fn heads_tails_and_slices() {
    instances(
        |_| (0, 1, vec![1], vec![]),
        |_| (4, 0, vec![1], vec![]),
        |_| (4, 1, vec![1], vec![2]),
        |_| (0, 0, vec![1, 2, 3, 4, 5], vec![]),
        |_| (4, 4, vec![1], vec![2, 3, 4, 5]),
    );
}

#[test]
fn impossible_instances() {
    // . . . . H (4-5)
    {
        let mut deque = Deque::with_exact_capacity(5).unwrap();
        deque.push_back(1).unwrap();
        deque.push_back(1).unwrap();
        deque.push_back(1).unwrap();
        deque.push_back(1).unwrap();
        deque.push_back(1).unwrap();
        let _ = deque.pop_front().unwrap();
        let _ = deque.pop_front().unwrap();
        let _ = deque.pop_front().unwrap();
        let _ = deque.pop_front().unwrap();
        assert_eq!((deque.head(), deque.tail(), slices(&deque)), (4, 0, (vec![1], vec![])));
    }
    // H * * * T (0-5)
    {
        let mut deque = Deque::with_exact_capacity(5).unwrap();
        deque.push_back(1).unwrap();
        deque.push_back(2).unwrap();
        deque.push_back(3).unwrap();
        deque.push_back(4).unwrap();
        deque.push_back(5).unwrap();
        assert_eq!(
            (deque.head(), deque.tail(), slices(&deque)),
            (0, 0, (vec![1, 2, 3, 4, 5], vec![]))
        );
    }
}

#[test]
fn tests_pop_back() {
    instances(
        |deque| {
            let _ = deque.pop_back().unwrap();
            (0, 0, vec![], vec![])
        },
        |deque| {
            let _ = deque.pop_back().unwrap();
            (4, 4, vec![], vec![])
        },
        |deque| {
            let _ = deque.pop_back().unwrap();
            (4, 0, vec![1], vec![])
        },
        |deque| {
            let _ = deque.pop_back().unwrap();
            (0, 4, vec![1, 2, 3, 4], vec![])
        },
        |deque| {
            let _ = deque.pop_back().unwrap();
            (4, 3, vec![1], vec![2, 3, 4])
        },
    );
}

#[test]
fn tests_pop_front() {
    instances(
        |deque| {
            let _ = deque.pop_front().unwrap();
            (1, 1, vec![], vec![])
        },
        |deque| {
            let _ = deque.pop_front().unwrap();
            (0, 0, vec![], vec![])
        },
        |deque| {
            let _ = deque.pop_front().unwrap();
            (0, 1, vec![2], vec![])
        },
        |deque| {
            let _ = deque.pop_front().unwrap();
            (1, 0, vec![2, 3, 4, 5], vec![])
        },
        |deque| {
            let _ = deque.pop_front().unwrap();
            (0, 4, vec![2, 3, 4, 5], vec![])
        },
    );
}

#[test]
fn push_front() {
    let mut deque = Deque::with_capacity(1).unwrap();
    assert_eq!(deque.len(), 0);
    deque.push_front(1).unwrap();
    assert_eq!(deque.len(), 1);
}

#[test]
fn push_when_full() {
    let mut bq = Deque::with_capacity(5).unwrap();
    bq.push_front(0).unwrap();
    bq.push_front(1).unwrap();
    bq.push_front(2).unwrap();
    bq.push_front(3).unwrap();
    bq.push_front(4).unwrap();
    let _ = bq.pop_back();
    let _ = bq.pop_back();
    bq.push_front(5).unwrap();
    bq.push_front(6).unwrap();
    assert_eq!(slices(&bq), (vec![6, 5], vec![4, 3, 2]));
}

#[test]
fn reserve() {
    let mut deque = Deque::<u8>::new();
    assert_eq!(deque.capacity(), 0);
    let _ = deque.reserve_back(10).unwrap();
    assert!(deque.capacity() >= 10);
    let _ = deque.reserve_front(20).unwrap();
    assert!(deque.capacity() >= 20);
}

#[test]
fn truncate_back() {
    let mut deque = Deque::with_exact_capacity(4).unwrap();
    deque.push_front(1).unwrap();
    deque.push_back(2).unwrap();
    deque.push_back(3).unwrap();
    deque.truncate_back(1);
    deque.push_back(99).unwrap();
    let (front, back) = slices(&deque);
    assert_eq!(front, vec![1]);
    assert_eq!(back, vec![99]);
}

#[test]
fn truncate_front_keeps_the_last_elements() {
    let mut queue = Deque::new();
    queue.push_front(1).unwrap();
    queue.push_front(3).unwrap();
    queue.push_back(5).unwrap();
    queue.push_back(7).unwrap();
    queue.truncate_front(2);
    assert_eq!(slices(&queue), (vec![5, 7], vec![]));
    queue.truncate_front(0);
    assert_eq!(slices(&queue), (vec![], vec![]));
}

#[test]
fn truncate_back_keeps_the_first_elements() {
    let mut queue = Deque::new();
    queue.push_front(1).unwrap();
    queue.push_front(3).unwrap();
    queue.push_back(5).unwrap();
    queue.push_back(7).unwrap();
    queue.truncate_back(2);
    assert_eq!(slices(&queue), (vec![3, 1], vec![]));
    queue.truncate_back(0);
    assert_eq!(slices(&queue), (vec![], vec![]));
}

#[test]
fn push_front_then_back_splits_slices() {
    let mut queue = Deque::with_capacity(8).unwrap();
    queue.push_front(3).unwrap();
    queue.push_back(1).unwrap();
    queue.push_back(2).unwrap();
    assert_eq!(slices(&queue), (vec![3], vec![1, 2]));
}

#[test]
fn expand_back_and_front_fill_with_clones() {
    let mut queue = Deque::new();
    assert_eq!(queue.expand_back(ExpansionTy::Len(4), 1).unwrap(), 4);
    assert_eq!(slices(&queue), (vec![1, 1, 1, 1], vec![]));
    let mut queue = Deque::new();
    let _ = queue.expand_front(ExpansionTy::Len(4), 1).unwrap();
    assert_eq!(slices(&queue), (vec![1, 1, 1, 1], vec![]));
    assert_eq!(queue.expand_back(ExpansionTy::Len(2), 9).unwrap(), 0);
    assert_eq!(queue.len(), 4);
}

#[test]
fn extend_from_copyable_slices_in_order() {
    let mut queue = Deque::new();
    queue.push_back(4).unwrap();
    queue.extend_back_from_copyable_slices(&[&[2, 3][..]]).unwrap();
    queue.extend_back_from_copyable_slices(&[&[0, 1][..], &[1][..]]).unwrap();
    assert_eq!(slices(&queue), (vec![4, 2, 3, 0, 1, 1], vec![]));

    let mut queue = Deque::new();
    queue.push_front(4).unwrap();
    queue.extend_front_from_copyable_slices(&[&[2, 3][..]]).unwrap();
    queue.extend_front_from_copyable_slices(&[&[0, 1][..], &[1][..]]).unwrap();
    assert_eq!(slices(&queue), (vec![0, 1, 1, 2, 3, 4], vec![]));
}

#[test]
fn extend_from_iter_and_iter() {
    let mut queue = Deque::new();
    queue.extend_back_from_iter(vec![1, 2]).unwrap();
    queue.extend_front_from_iter(vec![3, 4]).unwrap();
    assert_eq!(queue.len(), 4);
    let items: Vec<i32> = queue.iter().into_iter().copied().collect();
    assert_eq!(items, vec![4, 3, 1, 2]);
    assert_eq!(queue.last(), Some(&2));
}

#[test]
fn push_then_pop_restores() {
    let mut queue = Deque::with_capacity(2).unwrap();
    queue.push_back(1).unwrap();
    queue.push_front(0).unwrap();
    queue.push_back(2).unwrap();
    assert_eq!(queue.pop_back(), Some(2));
    assert_eq!(queue.pop_front(), Some(0));
    assert_eq!(queue.pop_front(), Some(1));
    assert_eq!(queue.pop_front(), None);
    assert_eq!(queue.pop_back(), None);
}

#[test]
fn extend_front_from_copyable_within() {
    test(no_wrapping_00, (vec![], vec![]), (vec![], vec![]), (vec![], vec![]), (vec![], vec![]), (vec![], vec![]), (vec![], vec![]));
    test(no_wrapping_11, (vec![], vec![]), (vec![], vec![]), (vec![], vec![]), (vec![], vec![]), (vec![], vec![]), (vec![], vec![]));

    test(
        no_wrapping_01,
        (vec![1], vec![1]),
        (vec![1], vec![]),
        (vec![1], vec![]),
        (vec![1], vec![]),
        (vec![1], vec![]),
        (vec![1], vec![]),
    );
    test(
        no_wrapping_02,
        (vec![1], vec![1, 2]),
        (vec![1, 2], vec![1, 2]),
        (vec![1, 2], vec![]),
        (vec![2], vec![1, 2]),
        (vec![1, 2], vec![]),
        (vec![1, 2], vec![]),
    );
    test(
        no_wrapping_36,
        (vec![4, 4, 5, 6], vec![]),
        (vec![4, 5, 4, 5, 6], vec![]),
        (vec![4, 5, 6], vec![]),
        (vec![5, 4, 5, 6], vec![]),
        (vec![5, 6, 4, 5, 6], vec![]),
        (vec![4, 5, 6], vec![]),
    );

    test(
        wrapping_00,
        (vec![1, 1, 2, 3, 4, 5, 6, 7, 8], vec![]),
        (vec![1, 2, 1, 2, 3, 4, 5, 6, 7, 8], vec![]),
        (vec![1, 2, 3, 4, 5, 6, 7, 8], vec![]),
        (vec![2, 1, 2, 3, 4, 5, 6, 7, 8], vec![]),
        (vec![2, 3, 1, 2, 3, 4, 5, 6, 7, 8], vec![]),
        (vec![1, 2, 3, 4, 5, 6, 7, 8], vec![]),
    );
    test(
        wrapping_22,
        (vec![1, 1, 2, 3, 4, 5, 6], vec![7, 8]),
        (vec![1, 2, 1, 2, 3, 4, 5, 6], vec![7, 8]),
        (vec![1, 2, 3, 4, 5, 6], vec![7, 8]),
        (vec![2, 1, 2, 3, 4, 5, 6], vec![7, 8]),
        (vec![2, 3, 1, 2, 3, 4, 5, 6], vec![7, 8]),
        (vec![1, 2, 3, 4, 5, 6], vec![7, 8]),
    );
    test(
        wrapping_77,
        (vec![1, 1], vec![2, 3, 4, 5, 6, 7, 8]),
        (vec![1], vec![2, 3, 4, 5, 6, 7, 8]),
        (vec![1], vec![2, 3, 4, 5, 6, 7, 8]),
        (vec![2, 1], vec![2, 3, 4, 5, 6, 7, 8]),
        (vec![2, 3, 1], vec![2, 3, 4, 5, 6, 7, 8]),
        (vec![1], vec![2, 3, 4, 5, 6, 7, 8]),
    );

    test(
        wrapping_60,
        (vec![7, 7, 8], vec![]),
        (vec![7, 8, 7, 8], vec![]),
        (vec![7, 8], vec![]),
        (vec![8, 7, 8], vec![]),
        (vec![7, 8], vec![]),
        (vec![7, 8], vec![]),
    );
    test(
        wrapping_64,
        (vec![1, 1, 2], vec![3, 4, 5, 6]),
        (vec![1, 2, 1, 2], vec![3, 4, 5, 6]),
        (vec![1, 2], vec![3, 4, 5, 6]),
        (vec![2, 1, 2], vec![3, 4, 5, 6]),
        (vec![1, 2], vec![3, 4, 5, 6]),
        (vec![1, 2], vec![3, 4, 5, 6]),
    );
    test(
        wrapping_70,
        (vec![1, 1], vec![]),
        (vec![1], vec![]),
        (vec![1], vec![]),
        (vec![1], vec![]),
        (vec![1], vec![]),
        (vec![1], vec![]),
    );
    test(
        wrapping_71,
        (vec![1, 1], vec![2]),
        (vec![1], vec![2]),
        (vec![1], vec![2]),
        (vec![2, 1], vec![2]),
        (vec![1], vec![2]),
        (vec![1], vec![2]),
    );
}

type Pair = (Vec<i32>, Vec<i32>);

fn test(
    deque_cb: impl Fn() -> Deque<i32>,
    skip0_copy1: Pair,
    skip0_copy2: Pair,
    skip0_copy10: Pair,
    skip1_copy1: Pair,
    skip1_copy2: Pair,
    skip1_copy10: Pair,
) {
    {
        let mut deque = deque_cb();
        let _rslt = deque.extend_front_from_copyable_within(0..1);
        assert_eq!(slices(&deque), skip0_copy1);
    }
    {
        let mut deque = deque_cb();
        let _rslt = deque.extend_front_from_copyable_within(0..2);
        assert_eq!(slices(&deque), skip0_copy2);
    }
    {
        let mut deque = deque_cb();
        let _rslt = deque.extend_front_from_copyable_within(0..10);
        assert_eq!(slices(&deque), skip0_copy10);
    }
    {
        let mut deque = deque_cb();
        let _rslt = deque.extend_front_from_copyable_within(1..2);
        assert_eq!(slices(&deque), skip1_copy1);
    }
    {
        let mut deque = deque_cb();
        let _rslt = deque.extend_front_from_copyable_within(1..3);
        assert_eq!(slices(&deque), skip1_copy2);
    }
    {
        let mut deque = deque_cb();
        let _rslt = deque.extend_front_from_copyable_within(1..11);
        assert_eq!(slices(&deque), skip1_copy10);
    }
}

fn instances(
    single_begin: impl FnOnce(&mut Deque<i32>) -> (usize, usize, Vec<i32>, Vec<i32>),
    single_end: impl FnOnce(&mut Deque<i32>) -> (usize, usize, Vec<i32>, Vec<i32>),
    single_both_sides: impl FnOnce(&mut Deque<i32>) -> (usize, usize, Vec<i32>, Vec<i32>),
    full_begin: impl FnOnce(&mut Deque<i32>) -> (usize, usize, Vec<i32>, Vec<i32>),
    full_end: impl FnOnce(&mut Deque<i32>) -> (usize, usize, Vec<i32>, Vec<i32>),
) {
    // H . . . . (0-1)
    {
        let mut deque = Deque::with_exact_capacity(5).unwrap();
        deque.push_back(1).unwrap();
        let (head, tail, front, back) = single_begin(&mut deque);
        verify_instance(&deque, head, tail, front, back);
    }
    // . . . . H (4-0)
    {
        let mut deque = Deque::with_exact_capacity(5).unwrap();
        deque.push_front(1).unwrap();
        let (head, tail, front, back) = single_end(&mut deque);
        verify_instance(&deque, head, tail, front, back);
    }
    // T . . . H (4-1)
    {
        let mut deque = Deque::with_exact_capacity(5).unwrap();
        deque.push_back(2).unwrap();
        deque.push_front(1).unwrap();
        let (head, tail, front, back) = single_both_sides(&mut deque);
        verify_instance(&deque, head, tail, front, back);
    }
    // H * * * T (0-0)
    {
        let mut deque = Deque::with_exact_capacity(5).unwrap();
        deque.push_front(5).unwrap();
        deque.push_front(4).unwrap();
        deque.push_front(3).unwrap();
        deque.push_front(2).unwrap();
        deque.push_front(1).unwrap();
        let _ = deque.pop_front().unwrap();
        deque.push_back(1).unwrap();
        let _ = deque.pop_back().unwrap();
        deque.push_front(1).unwrap();
        let (head, tail, front, back) = full_begin(&mut deque);
        verify_instance(&deque, head, tail, front, back);
    }
    // * * * T H (4-4)
    {
        let mut deque = Deque::with_exact_capacity(5).unwrap();
        deque.push_front(1).unwrap();
        deque.push_back(2).unwrap();
        deque.push_back(3).unwrap();
        deque.push_back(4).unwrap();
        deque.push_back(5).unwrap();
        let (head, tail, front, back) = full_end(&mut deque);
        verify_instance(&deque, head, tail, front, back);
    }
}

fn verify_instance(deque: &Deque<i32>, head: usize, tail: usize, front: Vec<i32>, back: Vec<i32>) {
    let is_back_empty = back.is_empty();
    let is_front_empty = front.is_empty();
    let len = front.len() + back.len();
    assert_eq!((deque.head(), deque.tail(), slices(deque)), (head, tail, (front, back)));
    assert_eq!(deque.len(), len);
    if deque.is_wrapping() {
        assert!(!is_front_empty);
    } else {
        assert!(is_back_empty);
    }
}

fn pop_front_n(deque: &mut Deque<i32>, n: i32) {
    for _ in 0..n {
        let _ = deque.pop_front().unwrap();
    }
}

fn push_back_n(deque: &mut Deque<i32>, n: i32) {
    for idx in 1..=n {
        deque.push_back(idx).unwrap();
    }
}

fn no_wrapping_00() -> Deque<i32> {
    let deque = Deque::with_capacity(8).unwrap();
    assert_eq!((deque.head(), deque.tail(), deque.len(), deque.is_wrapping()), (0, 0, 0, false));
    deque
}

fn no_wrapping_01() -> Deque<i32> {
    let mut deque = Deque::with_capacity(8).unwrap();
    push_back_n(&mut deque, 1);
    assert_eq!((deque.head(), deque.tail(), deque.len(), deque.is_wrapping()), (0, 1, 1, false));
    deque
}

fn no_wrapping_02() -> Deque<i32> {
    let mut deque = Deque::with_capacity(8).unwrap();
    push_back_n(&mut deque, 2);
    assert_eq!((deque.head(), deque.tail(), deque.len(), deque.is_wrapping()), (0, 2, 2, false));
    deque
}

fn no_wrapping_11() -> Deque<i32> {
    let mut deque = Deque::with_capacity(8).unwrap();
    deque.push_back(1).unwrap();
    let _ = deque.pop_front().unwrap();
    assert_eq!((deque.head(), deque.tail(), deque.len(), deque.is_wrapping()), (1, 1, 0, false));
    deque
}

fn no_wrapping_36() -> Deque<i32> {
    let mut deque = Deque::with_capacity(8).unwrap();
    push_back_n(&mut deque, 6);
    pop_front_n(&mut deque, 3);
    assert_eq!((deque.head(), deque.tail(), deque.len(), deque.is_wrapping()), (3, 6, 3, false));
    deque
}

fn wrapping_00() -> Deque<i32> {
    let mut deque = Deque::with_capacity(8).unwrap();
    push_back_n(&mut deque, 8);
    assert_eq!((deque.head(), deque.tail(), deque.len(), deque.is_wrapping()), (0, 0, 8, true));
    deque
}

fn wrapping_22() -> Deque<i32> {
    let mut deque = Deque::with_capacity(8).unwrap();
    deque.push_front(6).unwrap();
    deque.push_front(5).unwrap();
    deque.push_front(4).unwrap();
    deque.push_front(3).unwrap();
    deque.push_front(2).unwrap();
    deque.push_front(1).unwrap();
    deque.push_back(7).unwrap();
    deque.push_back(8).unwrap();
    assert_eq!((deque.head(), deque.tail(), deque.len(), deque.is_wrapping()), (2, 2, 8, true));
    deque
}

fn wrapping_60() -> Deque<i32> {
    let mut deque = Deque::with_capacity(8).unwrap();
    push_back_n(&mut deque, 8);
    pop_front_n(&mut deque, 6);
    assert_eq!((deque.head(), deque.tail(), deque.len(), deque.is_wrapping()), (6, 0, 2, true));
    deque
}

fn wrapping_64() -> Deque<i32> {
    let mut deque = Deque::with_capacity(8).unwrap();
    deque.push_front(2).unwrap();
    deque.push_front(1).unwrap();
    deque.push_back(3).unwrap();
    deque.push_back(4).unwrap();
    deque.push_back(5).unwrap();
    deque.push_back(6).unwrap();
    assert_eq!((deque.head(), deque.tail(), deque.len(), deque.is_wrapping()), (6, 4, 6, true));
    deque
}

fn wrapping_70() -> Deque<i32> {
    let mut deque = Deque::with_capacity(8).unwrap();
    deque.push_front(1).unwrap();
    assert_eq!((deque.head(), deque.tail(), deque.len(), deque.is_wrapping()), (7, 0, 1, true));
    deque
}

fn wrapping_71() -> Deque<i32> {
    let mut deque = Deque::with_capacity(8).unwrap();
    deque.push_front(1).unwrap();
    deque.push_back(2).unwrap();
    assert_eq!((deque.head(), deque.tail(), deque.len(), deque.is_wrapping()), (7, 1, 2, true));
    deque
}

fn wrapping_77() -> Deque<i32> {
    let mut deque = Deque::with_capacity(8).unwrap();
    deque.push_front(1).unwrap();
    deque.push_back(2).unwrap();
    deque.push_back(3).unwrap();
    deque.push_back(4).unwrap();
    deque.push_back(5).unwrap();
    deque.push_back(6).unwrap();
    deque.push_back(7).unwrap();
    deque.push_back(8).unwrap();
    assert_eq!((deque.head(), deque.tail(), deque.len(), deque.is_wrapping()), (7, 7, 8, true));
    deque
}

#[test]
fn truncate_back_to_buffer_moves_the_removed_elements() {
    let mut deque = Deque::new();
    for value in [1, 2, 3, 4] {
        deque.push_back(value).unwrap();
    }
    let mut buffer: Vec<i32> = Vec::new();
    deque.truncate_back_to_buffer(&mut buffer, 1).unwrap();
    assert_eq!(slices(&deque), (vec![1], vec![]));
    assert_eq!(buffer, vec![2, 3, 4]);
    deque.truncate_back_to_buffer(&mut buffer, 5).unwrap();
    assert_eq!(slices(&deque), (vec![1], vec![]));
    assert_eq!(buffer, vec![2, 3, 4]);
}

#[test]
fn truncate_back_to_buffer_around_the_end_of_the_ring() {
    let mut deque = Deque::with_exact_capacity(4).unwrap();
    deque.push_back(1).unwrap();
    deque.push_back(2).unwrap();
    deque.push_front(0).unwrap();
    assert!(deque.is_wrapping());
    assert_eq!(deque.tail(), 2);
    let mut buffer: Vec<i32> = Vec::new();
    deque.truncate_back_to_buffer(&mut buffer, 0).unwrap();
    assert_eq!(deque.len(), 0);
    assert_eq!(buffer, vec![1, 2, 0]);
}

#[test]
fn truncate_front_to_buffer_moves_the_removed_elements_in_order() {
    let mut deque = Deque::with_exact_capacity(4).unwrap();
    deque.push_back(1).unwrap();
    deque.push_back(2).unwrap();
    deque.push_front(0).unwrap();
    let mut buffer: Vec<i32> = Vec::new();
    deque.truncate_front_to_buffer(&mut buffer, 1).unwrap();
    assert_eq!(slices(&deque), (vec![2], vec![]));
    assert_eq!(buffer, vec![0, 1]);
}

#[test]
fn truncate_to_a_full_buffer_still_shortens() {
    let mut deque = Deque::new();
    for value in [1, 2, 3] {
        deque.push_back(value).unwrap();
    }
    let mut buffer: Option<i32> = None;
    assert!(deque.truncate_front_to_buffer(&mut buffer, 0).is_err());
    assert_eq!(deque.len(), 0);
    assert_eq!(buffer, Some(1));
}

struct DropSpyManager {
    counter: std::sync::Arc<std::sync::atomic::AtomicUsize>,
}

impl DropSpyManager {
    fn new() -> Self {
        Self { counter: std::sync::Arc::new(std::sync::atomic::AtomicUsize::new(0)) }
    }

    fn counter(&self) -> usize {
        self.counter.load(std::sync::atomic::Ordering::SeqCst)
    }

    fn spawn(&self) -> DropSpySpawn {
        DropSpySpawn { counter: self.counter.clone() }
    }
}

#[derive(Debug)]
struct DropSpySpawn {
    counter: std::sync::Arc<std::sync::atomic::AtomicUsize>,
}

impl Drop for DropSpySpawn {
    fn drop(&mut self) {
        let _ = self.counter.fetch_add(1, std::sync::atomic::Ordering::SeqCst);
    }
}

fn spied_deque(dpm: &DropSpyManager) -> Deque<DropSpySpawn> {
    let mut deque = Deque::new();
    for _ in 0..5 {
        deque.push_back(dpm.spawn()).unwrap();
    }
    deque
}

#[test]
fn drops_all_elements_with_buffer() {
    let dpm = DropSpyManager::new();
    let mut buffer: wtx::collection::ArrayVector<u8, DropSpySpawn, 5> =
        wtx::collection::ArrayVector::new();
    let mut deque = spied_deque(&dpm);
    deque.truncate_front_to_buffer(&mut buffer, 0).unwrap();
    assert_eq!(buffer.len(), 5);
    assert_eq!(dpm.counter(), 0);
}

#[test]
fn drops_all_elements_without_buffer() {
    let dpm = DropSpyManager::new();
    let mut deque = spied_deque(&dpm);
    deque.truncate_back_to_buffer(&mut (), 0).unwrap();
    assert_eq!(dpm.counter(), 5);
}

#[test]
fn drops_some_elements() {
    let dpm = DropSpyManager::new();
    let mut buffer: wtx::collection::ArrayVector<u8, DropSpySpawn, 2> =
        wtx::collection::ArrayVector::new();
    let mut deque = spied_deque(&dpm);
    let _rslt = deque.truncate_front_to_buffer(&mut buffer, 0);
    assert_eq!(buffer.len(), 2);
    assert_eq!(dpm.counter(), 3);
}

#[test]
fn get_mut_and_last_mut_change_one_element() {
    let mut deque = Deque::new();
    for value in [1, 2, 3] {
        deque.push_back(value).unwrap();
    }
    *deque.get_mut(1).unwrap() = 20;
    *deque.last_mut().unwrap() = 30;
    assert!(deque.get_mut(3).is_none());
    assert_eq!(slices(&deque), (vec![1, 20, 30], vec![]));
    let mut empty: Deque<i32> = Deque::new();
    assert!(empty.last_mut().is_none());
}

#[test]
fn clone_is_independent() {
    let mut deque = Deque::new();
    deque.push_back(1).unwrap();
    let copy = deque.clone();
    deque.push_front(0).unwrap();
    assert_eq!(slices(&copy), (vec![1], vec![]));
    assert_eq!(deque.len(), 2);
}

#[test]
fn front_and_back_room_move_head_and_tail() {
    let mut queue = Deque::with_capacity(8).unwrap();
    queue.push_back(1).unwrap();
    queue.push_back(2).unwrap();
    assert_eq!((queue.head(), queue.tail()), (0, 2));
    assert_eq!(queue.extend_front_from_copyable_slices(&[&[5, 6][..]]).unwrap(), 2);
    assert_eq!((queue.head(), queue.tail(), slices(&queue)), (6, 2, (vec![5, 6], vec![1, 2])));
    assert_eq!(queue.expand_front(ExpansionTy::Additional(1), 7).unwrap().0, 1);
    assert_eq!((queue.head(), queue.tail(), slices(&queue)), (5, 2, (vec![7, 5, 6], vec![1, 2])));
    assert_eq!(queue.extend_back_from_copyable_slices(&[&[9][..]]).unwrap(), 1);
    assert_eq!((queue.head(), queue.tail(), slices(&queue)), (5, 3, (vec![7, 5, 6], vec![1, 2, 9])));
    assert_eq!(queue.capacity(), 8);
}

#[test]
fn reserve_reports_the_head_shift() {
    let mut queue = Deque::with_capacity(4).unwrap();
    queue.push_back(1).unwrap();
    queue.push_back(2).unwrap();
    queue.push_back(3).unwrap();
    assert_eq!(queue.pop_front(), Some(1));
    assert_eq!((queue.head(), queue.tail()), (1, 3));
    assert_eq!(queue.reserve_front(2).unwrap(), 1);
    assert_eq!((queue.head(), queue.tail(), queue.capacity()), (2, 4, 4));
    assert_eq!(slices(&queue), (vec![2, 3], vec![]));
    assert_eq!(queue.reserve_back(3).unwrap(), 0);
}
