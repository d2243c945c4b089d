use zkvm_sim::serializer::{SerError, Serializer, WordWrite};

#[test]
fn words_and_padded_bytes() {
    let mut v: Vec<u32> = Vec::new();
    v.write_words(&[1, 2]).unwrap();
    v.write_padded_bytes(&[1, 2, 3, 4, 5]).unwrap();
    assert_eq!(v, vec![1, 2, 0x0403_0201, 5]);
}

#[test]
fn integers_are_words() {
    let mut s = Serializer::new(Vec::new());
    s.serialize_bool(true).unwrap();
    s.serialize_i8(-1).unwrap();
    s.serialize_u64(0x1122_3344_5566_7788).unwrap();
    s.serialize_u128(0x0102_0304_0506_0708_090a_0b0c_0d0e_0f10).unwrap();
    assert_eq!(
        s.stream,
        vec![1, 0xFFFF_FFFF, 0x5566_7788, 0x1122_3344, 0x0d0e_0f10, 0x090a_0b0c, 0x0506_0708, 0x0102_0304]
    );
}

#[test]
fn strings_and_options() {
    let mut s = Serializer::new(Vec::new());
    s.serialize_str("hello").unwrap();
    s.serialize_none().unwrap();
    s.serialize_some_tag().unwrap();
    s.serialize_char('A').unwrap();
    assert_eq!(s.stream, vec![5, 0x6c6c_6568, 0x6f, 0, 1, 65]);
}

#[test]
fn sequences_need_a_length() {
    let mut s = Serializer::new(Vec::new());
    assert_eq!(s.serialize_len(None), Err(SerError::NotSupported));
    s.serialize_len(Some(3)).unwrap();
    s.serialize_variant_index(2).unwrap();
    assert_eq!(s.stream, vec![3, 2]);
}
