use wtx::collection::{ArrayStringU8, ArrayStringUsize};
use wtx::Error;

#[test]
fn array_string_from_iterator_and_as_slice() {
    let instance = ArrayStringUsize::<16>::from_iterator("123".chars().collect()).unwrap();
    assert_eq!(instance.as_slice(), "123");
    assert!(instance.capacity() >= 3);
    assert_eq!(instance.capacity(), 16);
    assert_eq!(instance.remaining(), 13);
}

#[test]
fn array_string_clear() {
    let mut instance = ArrayStringUsize::<16>::from_iterator("123".chars().collect()).unwrap();
    instance.clear();
    assert_eq!(instance.len(), 0);
}

#[test]
fn array_string_pop() {
    let mut instance = ArrayStringUsize::<16>::from_iterator("123".chars().collect()).unwrap();
    assert_eq!(instance.pop(), Some('3'));
    assert_eq!(instance.as_slice(), "12");
    let mut accented = ArrayStringU8::<16>::new();
    accented.push_str("aé€😀").unwrap();
    assert_eq!(accented.pop(), Some('😀'));
    assert_eq!(accented.pop(), Some('€'));
    assert_eq!(accented.pop(), Some('é'));
    assert_eq!(accented.as_str(), "a");
    assert_eq!(accented.pop(), Some('a'));
    assert_eq!(accented.pop(), None);
}

#[test]
fn array_string_push() {
    let mut instance = ArrayStringUsize::<16>::new();
    instance.push('1').unwrap();
    assert_eq!(instance.as_slice(), "1");
    let mut small = ArrayStringU8::<3>::new();
    small.push('é').unwrap();
    assert!(matches!(small.push('é'), Err(Error::ArrayStringError(_))));
    assert_eq!(small.as_str(), "é");
    small.push('x').unwrap();
    assert_eq!(small.len(), 3);
}

#[test]
fn array_string_remove() {
    let mut instance = ArrayStringUsize::<16>::from_iterator("123".chars().collect()).unwrap();
    assert_eq!(instance.remove(1), Some('2'));
    assert_eq!(instance.as_slice(), "13");
    let mut accented = ArrayStringU8::<16>::new();
    accented.push_str("aéb").unwrap();
    assert_eq!(accented.remove(2), None);
    assert_eq!(accented.remove(4), None);
    assert_eq!(accented.remove(1), Some('é'));
    assert_eq!(accented.as_str(), "ab");
}

#[test]
fn array_string_truncate() {
    let mut instance = ArrayStringUsize::<16>::from_iterator("123".chars().collect()).unwrap();
    instance.truncate(1);
    assert_eq!(instance.as_slice(), "1");
    let mut accented = ArrayStringU8::<16>::new();
    accented.push_str("aé").unwrap();
    accented.truncate(2);
    assert_eq!(accented.as_str(), "aé");
    accented.truncate(9);
    assert_eq!(accented.as_str(), "aé");
}

#[test]
fn array_string_push_strs_and_data() {
    let mut instance = ArrayStringU8::<6>::new();
    assert_eq!(instance.push_strs(&["ab", "cd"]).unwrap(), 4);
    assert!(instance.data().is_err());
    assert!(instance.push_strs(&["ef", "g"]).is_err());
    assert_eq!(instance.as_str(), "abcd");
    instance.push_str("ef").unwrap();
    assert_eq!(instance.data().unwrap(), b"abcdef");
}

#[test]
fn array_string_from_array() {
    let instance = ArrayStringU8::<3>::from_array(*b"abc").unwrap();
    assert_eq!(instance.as_str(), "abc");
    assert!(matches!(ArrayStringU8::<2>::from_array([0xff, 0]), Err(Error::InvalidUtf8)));
    let zeroed = ArrayStringU8::<4>::zeroed();
    assert_eq!(zeroed.as_str(), "\0\0\0\0");
    assert!(ArrayStringU8::<4>::try_from_bytes(&[0xc3, 0xa9]).is_ok());
    assert!(ArrayStringU8::<4>::try_from_bytes(&[0xc3]).is_err());
    assert!(ArrayStringU8::<2>::try_from_str("abc").is_err());
}

#[test]
fn from_parts_cuts_the_length_to_the_capacity() {
    let s = ArrayStringU8::<4>::from_parts(*b"abcd", 2).unwrap();
    assert_eq!(s.as_str(), "ab");
    let s = ArrayStringU8::<4>::from_parts(*b"abcd", 10).unwrap();
    assert_eq!(s.as_str(), "abcd");
    assert_eq!(ArrayStringU8::<4>::from_parts([b'a', 0xff, 0, 0], 2).err(), Some(Error::InvalidUtf8));
    assert_eq!(ArrayStringU8::<4>::from_parts([b'a', 0xff, 0, 0], 1).unwrap().as_str(), "a");
}
