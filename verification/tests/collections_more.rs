use std::collections::VecDeque;
use wtx::collection::{
    capacity_upper_bound_of, ArrayStringU8, ArrayVector, CapacityUpperBound, Clear,
    CompressedRows, Deque, FixedString, Truncate, TryExtend, UninitU8, UninitUsize, Vector,
};
use wtx::collections::MaybeUninitSlice;
use wtx::crypto::{aead_nonce_from, gen_aead_nonce, CryptoRng, AEAD_NONCE_LEN};
use wtx::Error;

#[test]
fn queue() {
    for len in [0usize, 1, 2, 7, 64, 128] {
        let bytes: Vec<u8> = (0..len).map(|idx| (idx * 7 % 251) as u8).collect();
        let mut queue = Deque::with_capacity(bytes.len()).unwrap();
        let mut vec_deque = VecDeque::with_capacity(bytes.len());
        for byte in bytes.iter().copied() {
            queue.push_front(byte).unwrap();
            vec_deque.push_front(byte);
        }
        assert_eq!(queue.len(), vec_deque.len());
        for _ in 0..(bytes.len() / 2) {
            let (front, back) = queue.as_slices();
            let (vd_front, vd_back) = vec_deque.as_slices();
            let mut lhs = front.clone();
            lhs.extend(back);
            let mut rhs = vd_front.to_vec();
            rhs.extend(vd_back);
            assert_eq!(lhs, rhs);
            assert_eq!(queue.get(0), vec_deque.get(0));
            assert_eq!(queue.pop_back(), vec_deque.pop_back());
            assert_eq!(queue.get(0), vec_deque.get(0));
            assert_eq!(queue.pop_front(), vec_deque.pop_front());
        }
        while queue.len() > 0 {
            assert_eq!(queue.get(0), vec_deque.get(0));
            assert_eq!(queue.pop_back(), vec_deque.pop_back());
            if queue.len() == 0 {
                break;
            }
            assert_eq!(queue.pop_front(), vec_deque.pop_front());
        }
        assert_eq!((queue.len(), vec_deque.len()), (0, 0));
    }
}

#[test]
fn fixed_string_round_trip() {
    let fixed = FixedString::<3>::from_array(*b"abc").unwrap();
    assert_eq!(fixed.as_str(), "abc");
    assert_eq!(fixed.into_inner(), *b"abc");
    assert!(matches!(FixedString::<2>::from_array([0xc3, 0x28]), Err(Error::FixedStringError(_))));
    assert!(FixedString::<3>::from_slice(b"ab").is_err());
    assert_eq!(FixedString::<2>::from_slice(&[0xc3, 0xa9]).unwrap().as_str(), "é");
    assert!(FixedString::<3>::try_from_str("abcd").is_err());
    assert_eq!(FixedString::<4>::try_from_str("abcd").unwrap().as_str(), "abcd");
    assert_eq!(FixedString::<2>::default().as_str(), "\0\0");
}

#[test]
fn compressed_rows_push_and_iter() {
    let mut rows = CompressedRows::new();
    assert_eq!(rows.rows(), 0);
    rows.push_row_from_copyable_slice(&[1, 2, 3]).unwrap();
    rows.push_row_from_copyable_slice(&[]).unwrap();
    rows.push_row_from_copyable_slice(&[4]).unwrap();
    assert_eq!(rows.rows(), 3);
    let all = rows.iter_rows();
    assert_eq!(all, vec![&[1, 2, 3][..], &[][..], &[4][..]]);
}

#[test]
fn uninit_push_and_extend() {
    let mut buffer = [0u32; 4];
    let mut uninit = UninitUsize::new(&mut buffer);
    assert_eq!(uninit.capacity(), 4);
    uninit.push(1).unwrap();
    assert_eq!(uninit.as_slice(), &[1]);
    uninit.extend_from_copyable_slice(&[2, 3]).unwrap();
    assert_eq!(uninit.as_slice(), &[1, 2, 3]);
    assert_eq!(uninit.remaining(), 1);
    assert!(uninit.extend_from_copyable_slice(&[4, 5]).is_err());
    assert_eq!(uninit.extend_from_copyable_slices(&[&[4][..]]).unwrap(), 1);
    assert!(matches!(uninit.push(6), Err(Error::UninitError(_))));
    assert_eq!(uninit.len(), 4);
    uninit.clear();
    assert_eq!(uninit.len(), 0);
    uninit.extend_from_iter(vec![7, 8]).unwrap();
    uninit.extend_from_cloneable_slice(&[9]).unwrap();
    assert_eq!(uninit.as_slice(), &[7, 8, 9]);
    let mut big = [0u8; 300];
    let small = UninitU8::<u8>::new(&mut big);
    assert_eq!(small.capacity(), 255);
}

#[test]
fn maybe_uninit_slice_parts() {
    let mut bytes = [1u8, 2, 3];
    let mut slice = MaybeUninitSlice::from_uninitialized(&mut bytes);
    assert_eq!(slice.initialized(), 0);
    slice.assume_initialized(10);
    assert_eq!(slice.initialized(), 3);
    assert_eq!(slice.all(), &[1, 2, 3]);
    let mut other = [4u8];
    let full = MaybeUninitSlice::from_initialized(&mut other);
    assert_eq!(full.initialized(), 1);
    assert_eq!(full.len(), 1);
}

struct CountingRng(u8);

impl CryptoRng for CountingRng {
    fn u8_16(&mut self) -> [u8; 16] {
        let mut r = [0; 16];
        for elem in r.iter_mut() {
            *elem = self.0;
            self.0 = self.0.wrapping_add(1);
        }
        r
    }
}

#[test]
fn aead_nonce() {
    let mut rng = CountingRng(10);
    let nonce = gen_aead_nonce(&mut rng);
    assert_eq!(nonce.len(), AEAD_NONCE_LEN);
    assert_eq!(nonce, [10, 11, 12, 13, 14, 15, 16, 17, 18, 19, 20, 21]);
    let bytes: [u8; 16] = core::array::from_fn(|idx| idx as u8);
    assert_eq!(aead_nonce_from(bytes), [0, 1, 2, 3, 4, 5, 6, 7, 8, 9, 10, 11]);
}

#[test]
fn traits_clear_truncate_capacity() {
    let mut vector = Vector::from_vec(vec![1, 2, 3]);
    Truncate::truncate(&mut vector, 1usize);
    assert_eq!(vector.as_slice(), &[1]);
    Clear::clear(&mut vector);
    assert_eq!(vector.len(), 0);
    let mut option = Some(1);
    Clear::clear(&mut option);
    assert_eq!(option, None);
    let mut string = ArrayStringU8::<8>::try_from_str("abc").unwrap();
    Truncate::truncate(&mut string, 2u8);
    assert_eq!(string.as_str(), "ab");
    Clear::clear(&mut string);
    assert_eq!(string.as_str(), "");
    assert_eq!([0u8; 5].capacity_upper_bound(), 5);
    assert_eq!(().capacity_upper_bound(), 0);
    assert_eq!(Some(1u8).capacity_upper_bound(), 1);
    assert_eq!(capacity_upper_bound_of::<u16>(), (isize::MAX as usize) / 2);
    assert_eq!(capacity_upper_bound_of::<()>(), 0);
    let mut vec = vec![1u8];
    Truncate::truncate(&mut vec, 0usize);
    assert!(vec.is_empty());
}

#[test]
fn traits_try_extend() {
    let mut option: Option<u8> = None;
    assert!(option.try_extend(&[][..]).is_ok());
    assert!(option.try_extend(&[1, 2][..]).is_err());
    option.try_extend(&[3][..]).unwrap();
    assert_eq!(option, Some(3));
    assert!(matches!(option.try_extend([4]), Err(Error::InsufficientOptionCapacity)));
    let mut string = ArrayStringU8::<8>::new();
    string.try_extend("ab").unwrap();
    string.try_extend(&b"cd"[..]).unwrap();
    string.try_extend((b'e', 2)).unwrap();
    assert_eq!(string.as_str(), "abcdee");
    assert!(string.try_extend(&[0xff][..]).is_err());
    let mut array: ArrayVector<u8, u8, 4> = ArrayVector::new();
    array.try_extend(&[1, 2][..]).unwrap();
    array.try_extend((9, 1)).unwrap();
    array.try_extend([7]).unwrap();
    assert_eq!(array.as_slice(), &[1, 2, 9, 7]);
    let mut vector = Vector::new();
    vector.try_extend((0u8, 2)).unwrap();
    vector.try_extend(&[5][..]).unwrap();
    vector.try_extend([6, 7]).unwrap();
    assert_eq!(vector.as_slice(), &[0, 0, 5, 6, 7]);
    let mut vec: Vec<u8> = vec![1];
    vec.try_extend((2, 3)).unwrap();
    vec.try_extend([3]).unwrap();
    assert_eq!(vec, vec![1, 2, 2, 3]);
    let mut unit = ();
    assert!(unit.try_extend([1, 2, 3]).is_ok());
}

#[test]
fn array_wrapper_exposes_the_array() {
    let wrapper = wtx::collection::ArrayWrapper::from([1u8, 2, 3]);
    assert_eq!(wrapper.0, [1, 2, 3]);
    assert_eq!(wrapper.as_array(), &[1, 2, 3]);
    assert_eq!(wrapper.len(), 3);
    let as_ref: &[u8; 3] = wrapper.as_ref();
    assert_eq!(as_ref, &[1, 2, 3]);
    assert!(wrapper < wtx::collection::ArrayWrapper([1, 2, 4]));
}

#[test]
fn maybe_uninit_slice_all_mut_writes_through() {
    let mut bytes = [0u8; 4];
    let mut slice = MaybeUninitSlice::from_uninitialized(&mut bytes);
    slice.all_mut()[2] = 9;
    slice.assume_initialized(3);
    assert_eq!(slice.all(), &[0, 0, 9, 0]);
    assert_eq!(slice.len(), 4);
}

#[test]
fn array_into_iter_hands_out_elements_from_both_ends() {
    let mut vec: ArrayVector<u8, u8, 4> = ArrayVector::new();
    for elem in [1, 2, 3] {
        vec.push(elem).unwrap();
    }
    let mut iter = vec.into_iter();
    assert_eq!(iter.len(), 3);
    assert_eq!(iter.next(), Some(1));
    assert_eq!(iter.next_back(), Some(3));
    assert_eq!(iter.len(), 1);
    assert_eq!(iter.next(), Some(2));
    assert_eq!(iter.next(), None);
    assert_eq!(iter.next_back(), None);
    let mut single: ArrayVector<u8, u8, 4> = ArrayVector::new();
    single.push(7).unwrap();
    let mut iter = single.into_iter();
    assert_eq!(iter.next_back(), Some(7));
    assert_eq!(iter.next(), None);
    let mut pair: ArrayVector<u8, i32, 4> = ArrayVector::new();
    pair.push(1).unwrap();
    pair.push(2).unwrap();
    let mut iter = pair.into_iter();
    assert_eq!(iter.next_back(), Some(2));
    assert_eq!(iter.next_back(), Some(1));
    assert_eq!(iter.next_back(), None);
}

#[test]
fn array_wrapper_as_mut_and_clones() {
    let mut wrapper = wtx::collection::ArrayWrapper([1u8, 2]);
    wrapper.as_mut()[0] = 5;
    assert_eq!(wrapper.0, [5, 2]);
    let mut vec: ArrayVector<u8, u8, 4> = ArrayVector::new();
    vec.push(3).unwrap();
    let copy = vec.clone();
    vec.push(4).unwrap();
    assert_eq!(copy.as_slice(), &[3]);
    assert_eq!(vec.as_slice(), &[3, 4]);
}

#[test]
fn reserving_nothing_and_extending_with_nothing_succeed() {
    let mut vec: Vector<u8> = Vector::with_capacity(0).unwrap();
    assert!(Vector::<u8>::with_exact_capacity(0).is_ok());
    assert!(vec.reserve(0).is_ok());
    assert!(vec.reserve_exact(0).is_ok());
    assert!(TryExtend::<&[u8]>::try_extend(&mut vec, &[][..]).is_ok());
    assert!(TryExtend::<[u8; 0]>::try_extend(&mut vec, []).is_ok());
    assert!(TryExtend::<[u8; 2]>::try_extend(&mut vec, [4, 5]).is_ok());
    assert_eq!(vec.as_slice(), &[4, 5]);
    let wrapper = wtx::collection::ArrayWrapper([7u8, 8]);
    assert_eq!(*wrapper, [7, 8]);
    let borrowed: &[u8; 2] = core::borrow::Borrow::borrow(&wrapper);
    assert_eq!(borrowed, &[7, 8]);
}

#[test]
fn std_vec_is_extended_by_a_slice() {
    let mut vec: Vec<i32> = vec![1];
    assert!(TryExtend::<&[i32]>::try_extend(&mut vec, &[2, 3][..]).is_ok());
    assert!(TryExtend::<&[i32]>::try_extend(&mut vec, &[][..]).is_ok());
    assert_eq!(vec, vec![1, 2, 3]);
}
