use wtx::collection::{Block, BlocksDeque, ExpansionTy};

fn check_state(
    bq: &BlocksDeque<i32, ()>,
    blocks_len: usize,
    elements_len: usize,
    front: &[i32],
    back: &[i32],
) {
    let (local_front, local_back) = bq.as_slices();
    assert_eq!(bq.blocks_len(), blocks_len);
    assert_eq!(bq.elements_len(), elements_len);
    assert_eq!(front, &local_front[..]);
    assert_eq!(back, &local_back[..]);
}

#[test]
fn pop_back() {
    let mut bq = BlocksDeque::with_exact_capacity(4, 8).unwrap();
    check_state(&bq, 0, 0, &[], &[]);

    bq.push_front_from_copyable_data(&[&[1][..]], ()).unwrap();
    check_state(&bq, 1, 1, &[1], &[]);

    bq.push_front_from_copyable_data(&[&[2, 3][..]], ()).unwrap();
    check_state(&bq, 2, 3, &[2, 3, 1], &[]);

    bq.push_front_from_copyable_data(&[&[4, 5], &[6][..]], ()).unwrap();
    check_state(&bq, 3, 6, &[4, 5, 6, 2, 3, 1], &[]);

    bq.push_front_from_copyable_data(&[&[7, 8][..]], ()).unwrap();
    check_state(&bq, 4, 8, &[7, 8, 4, 5, 6, 2, 3, 1], &[]);

    let _ = bq.pop_back();
    check_state(&bq, 3, 7, &[7, 8, 4, 5, 6, 2, 3], &[]);

    bq.push_front_from_copyable_data(&[&[9][..]], ()).unwrap();
    check_state(&bq, 4, 8, &[9], &[7, 8, 4, 5, 6, 2, 3]);

    let _ = bq.pop_back();
    check_state(&bq, 3, 6, &[9], &[7, 8, 4, 5, 6]);

    let _ = bq.pop_back();
    check_state(&bq, 2, 3, &[9], &[7, 8]);

    bq.push_front_from_copyable_data(&[&[10], &[11, 12][..]], ()).unwrap();
    check_state(&bq, 3, 6, &[10, 11, 12, 9], &[7, 8]);

    bq.push_front_from_copyable_data(&[&[13, 14][..]], ()).unwrap();
    check_state(&bq, 4, 8, &[13, 14, 10, 11, 12, 9], &[7, 8]);

    let _ = bq.pop_back();
    check_state(&bq, 3, 6, &[13, 14, 10, 11, 12, 9], &[]);

    let _ = bq.pop_back();
    check_state(&bq, 2, 5, &[13, 14, 10, 11, 12], &[]);

    let _ = bq.pop_back();
    check_state(&bq, 1, 2, &[13, 14], &[]);

    bq.push_front_from_copyable_data(&[&[15][..]], ()).unwrap();
    check_state(&bq, 2, 3, &[15, 13, 14], &[]);

    bq.push_front_from_copyable_data(&[&[16][..]], ()).unwrap();
    check_state(&bq, 3, 4, &[16, 15, 13, 14], &[]);

    let _ = bq.pop_back();
    check_state(&bq, 2, 2, &[16, 15], &[]);

    let _ = bq.pop_back();
    check_state(&bq, 1, 1, &[16], &[]);

    let _ = bq.pop_back();
    check_state(&bq, 0, 0, &[], &[]);
}

#[test]
fn pop_front() {
    let mut bq = BlocksDeque::with_exact_capacity(2, 8).unwrap();
    check_state(&bq, 0, 0, &[], &[]);

    bq.push_front_from_copyable_data(&[&[1, 2, 3][..]], ()).unwrap();
    check_state(&bq, 1, 3, &[1, 2, 3], &[]);

    bq.push_front_from_copyable_data(&[&[4, 5], &[6, 7, 8][..]], ()).unwrap();
    check_state(&bq, 2, 8, &[4, 5, 6, 7, 8, 1, 2, 3], &[]);

    let _ = bq.pop_front();
    check_state(&bq, 1, 3, &[1, 2, 3], &[]);

    let _ = bq.pop_front();
    check_state(&bq, 0, 0, &[], &[]);
}

#[test]
fn push_reserve_and_push() {
    let mut bq = BlocksDeque::new();
    bq.reserve_front(1, 4).unwrap();
    bq.push_front_from_copyable_data(&[&[0, 1, 2, 3][..]], ()).unwrap();
    check_state(&bq, 1, 4, &[0, 1, 2, 3], &[]);
    assert_eq!(bq.get(0), Some(Block { data: vec![0, 1, 2, 3], misc: &(), range: 0..4 }));
    assert_eq!(bq.get(1), None);
    bq.reserve_front(1, 6).unwrap();
    bq.push_front_from_copyable_data(&[&[4, 5, 6, 7, 8, 9][..]], ()).unwrap();
    check_state(&bq, 2, 10, &[4, 5, 6, 7, 8, 9, 0, 1, 2, 3], &[]);
    assert_eq!(bq.get(0), Some(Block { data: vec![4, 5, 6, 7, 8, 9], misc: &(), range: 0..6 }));
    assert_eq!(bq.get(1), Some(Block { data: vec![0, 1, 2, 3], misc: &(), range: 6..10 }));
    assert_eq!(bq.get(2), None);
}

#[test]
fn wrap_pop_back() {
    let mut bq = wrap_initial();
    let _ = bq.pop_back();
    let _ = bq.pop_back();
    check_state(&bq, 1, 3, &[1, 2, 3], &[]);
    assert_eq!(bq.get(0).unwrap().data, &[1, 2, 3]);
    let _ = bq.pop_back();
    check_state(&bq, 0, 0, &[], &[]);
}

#[test]
fn wrap_pop_front() {
    let mut bq = wrap_initial();
    let _ = bq.pop_front();
    check_state(&bq, 2, 2, &[0, 0], &[]);
    assert_eq!(bq.get(0).unwrap().data, &[0]);
    assert_eq!(bq.get(1).unwrap().data, &[0]);
    let _ = bq.pop_front();
    let _ = bq.pop_front();
    check_state(&bq, 0, 0, &[], &[]);
}

fn wrap_initial() -> BlocksDeque<i32, ()> {
    let mut bq = BlocksDeque::with_exact_capacity(6, 8).unwrap();
    check_state(&bq, 0, 0, &[], &[]);
    for _ in 0..6 {
        bq.push_front_from_copyable_data(&[&[0][..]], ()).unwrap();
    }
    check_state(&bq, 6, 6, &[0, 0, 0, 0, 0, 0], &[]);
    for idx in 0..6 {
        assert_eq!(bq.get(idx).unwrap().data, &[0]);
    }
    let _ = bq.pop_back();
    let _ = bq.pop_back();
    let _ = bq.pop_back();
    let _ = bq.pop_back();
    check_state(&bq, 2, 2, &[0, 0], &[]);
    assert_eq!(bq.get(0).unwrap().data, &[0]);
    assert_eq!(bq.get(1).unwrap().data, &[0]);
    bq.push_front_from_copyable_data(&[&[1, 2, 3][..]], ()).unwrap();
    check_state(&bq, 3, 5, &[1, 2, 3, 0, 0], &[]);
    assert_eq!(bq.get(0).unwrap().data, &[1, 2, 3]);
    assert_eq!(bq.get(1).unwrap().data, &[0]);
    assert_eq!(bq.get(2).unwrap().data, &[0]);
    bq
}

#[test]
fn blocks_push_back_and_iter() {
    let mut bq: BlocksDeque<i32, u8> = BlocksDeque::new();
    bq.push_back_from_copyable_data(&[&[1, 2][..], &[3][..]], 7).unwrap();
    bq.push_back_from_copyable_data(&[], 8).unwrap();
    bq.push_front_from_copyable_data(&[&[0][..]], 6).unwrap();
    let blocks = bq.iter();
    assert_eq!(blocks.len(), 3);
    assert_eq!(blocks[0], Block { data: vec![0], misc: &6, range: 0..1 });
    assert_eq!(blocks[1], Block { data: vec![1, 2, 3], misc: &7, range: 1..4 });
    assert_eq!(blocks[2], Block { data: vec![], misc: &8, range: 4..4 });
    assert_eq!(bq.pop_front(), Some(6));
    assert_eq!(bq.get(0), Some(Block { data: vec![1, 2, 3], misc: &7, range: 0..3 }));
    assert_eq!(bq.pop_back(), Some(8));
    assert_eq!(bq.pop_back(), Some(7));
    assert_eq!(bq.pop_back(), None);
    assert_eq!(bq.pop_front(), None);
}

#[test]
fn blocks_expand_back() {
    let mut bq: BlocksDeque<u8, ()> = BlocksDeque::new();
    assert_eq!(bq.expand_back(ExpansionTy::Additional(3), (), 9), Ok(3));
    assert_eq!(bq.expand_back(ExpansionTy::Len(5), (), 1), Ok(2));
    assert_eq!(bq.expand_back(ExpansionTy::Len(2), (), 1), Ok(0));
    assert_eq!(bq.blocks_len(), 3);
    assert_eq!(bq.elements_len(), 5);
    assert_eq!(bq.get(1).unwrap().data, vec![1, 1]);
    bq.clear();
    assert_eq!(bq.blocks_len(), 0);
    assert_eq!(bq.elements_len(), 0);
}

#[test]
fn blocks_capacities() {
    let bq: BlocksDeque<u8, ()> = BlocksDeque::with_capacity(3, 10).unwrap();
    assert_eq!(bq.blocks_capacity(), 3);
    assert_eq!(bq.elements_capacity(), 10);
    assert!(BlocksDeque::<u8, ()>::with_capacity(usize::MAX, 1).is_err());
}

#[test]
fn pop_back_and_front_to_buffer() {
    let mut bq: BlocksDeque<i32, u8> = BlocksDeque::new();
    assert_eq!(bq.pop_back_to_buffer(&mut Vec::new()), None);
    bq.push_back_from_copyable_data(&[&[1, 2][..]], 10).unwrap();
    bq.push_back_from_copyable_data(&[&[3][..], &[4, 5][..]], 20).unwrap();
    bq.push_back_from_copyable_data(&[&[6][..]], 30).unwrap();
    let mut buffer: Vec<i32> = Vec::new();
    assert_eq!(bq.pop_back_to_buffer(&mut buffer), Some(Ok(30)));
    assert_eq!(buffer, vec![6]);
    assert_eq!(bq.pop_front_to_buffer(&mut buffer), Some(Ok(10)));
    assert_eq!(buffer, vec![6, 1, 2]);
    assert_eq!(bq.blocks_len(), 1);
    assert_eq!(bq.elements_len(), 3);
    let mut single: Option<i32> = None;
    assert!(matches!(bq.pop_back_to_buffer(&mut single), Some(Err(_))));
    assert_eq!(single, Some(3));
    assert_eq!(bq.blocks_len(), 0);
    assert_eq!(bq.elements_len(), 0);
    assert_eq!(bq.pop_front_to_buffer(&mut buffer), None);
}

#[test]
fn a_block_that_would_cross_the_end_is_stored_in_one_run() {
    let mut bq = BlocksDeque::with_exact_capacity(4, 4).unwrap();
    bq.push_back_from_copyable_data(&[&[1][..]], ()).unwrap();
    bq.push_back_from_copyable_data(&[&[2, 3][..]], ()).unwrap();
    check_state(&bq, 2, 3, &[1, 2, 3], &[]);
    let _ = bq.pop_front();
    check_state(&bq, 1, 2, &[2, 3], &[]);
    bq.push_back_from_copyable_data(&[&[4, 5][..]], ()).unwrap();
    check_state(&bq, 2, 4, &[2, 3, 4, 5], &[]);
    assert_eq!(bq.elements_capacity(), 4);
}
