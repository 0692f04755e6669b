use wtx::collection::{
    ShortBoxSliceU8, ShortBoxStringU8, ShortBoxVectorU8, ShortSliceU8, ShortStrU8,
};
use wtx::collections::{ShortBoxStrU8, ShortStr};
use wtx::Error;

#[test]
fn empty_slice() {
    let empty: &[u8] = &[];
    let short = ShortSliceU8::new_truncated_u8(empty);
    assert!(short.is_empty());
}

#[test]
fn new_truncated() {
    let large_slice = &[0u8; 300];
    let short = ShortSliceU8::new_truncated_u8(large_slice);
    assert_eq!(short.len(), 255);
}

#[test]
fn static_instance() {
    let foo: ShortSliceU8<'static, u8> = ShortSliceU8::new_truncated_u8(&[1, 2, 3]);
    assert_eq!(foo.data(), &[1, 2, 3]);
}

#[test]
fn short_box_slice_new() {
    let data = [1, 2];
    let instance = ShortBoxSliceU8::new(Box::new(data)).unwrap();
    assert_eq!(instance.as_slice(), data);
}

#[test]
fn short_box_vector_new() {
    let data = [1, 2];
    let instance = ShortBoxVectorU8::new(Box::new(data)).unwrap();
    assert_eq!(instance.as_slice(), data);
}

#[test]
fn short_box_slice_too_long() {
    let data = vec![0u8; 256].into_boxed_slice();
    assert!(matches!(ShortBoxSliceU8::new(data), Err(Error::OutOfBoundsArithmetic)));
}

#[test]
fn short_str_new_truncated_keeps_whole_characters() {
    let text = "é".repeat(200);
    let short = ShortStrU8::new_truncated_u8(&text);
    assert_eq!(short.len(), 254);
    assert_eq!(short.into_str(), &text[..254]);
    let small = ShortStrU8::new_truncated_u8("abc");
    assert_eq!(small.into_str(), "abc");
}

#[test]
fn short_str_new_and_slice() {
    let short = ShortStr::<u8>::new("hello").unwrap();
    assert_eq!(short.len(), 5);
    assert_eq!(short.into_short_slice().data(), b"hello");
    let text = "a".repeat(256);
    assert!(ShortStr::<u8>::new(&text).is_err());
    assert!(ShortStr::<u16>::new(&text).is_ok());
}

#[test]
fn short_box_strings() {
    let string = ShortBoxStringU8::new(String::from("abc")).unwrap();
    assert_eq!(string.as_str(), "abc");
    let boxed = ShortBoxStrU8::new(Box::from("xyz")).unwrap();
    assert_eq!(boxed.len(), 3);
    assert_eq!(boxed.into_short_slice().as_slice(), b"xyz");
    assert!(ShortBoxStringU8::new("b".repeat(300)).is_err());
}

#[test]
fn new_truncated_str_cuts_at_the_last_character_boundary() {
    let text: &'static str = Box::leak(format!("{}é!", "a".repeat(254)).into_boxed_str());
    let short = ShortStrU8::new_truncated_u8(text);
    assert_eq!(short.len(), 254);
    let exact: &'static str = Box::leak("b".repeat(300).into_boxed_str());
    assert_eq!(ShortStrU8::new_truncated_u8(exact).len(), 255);
}
