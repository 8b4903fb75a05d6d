use segment_search::codec::BinarySerializable;
use segment_search::fstmap::{
    seal_image, sorts_before, split_source, DictError, FstMap, FstMapBuilder,
};

fn build(pairs: &[(&str, u32)]) -> Vec<u8> {
    let mut builder: FstMapBuilder<u32> = FstMapBuilder::new().unwrap();
    for (key, value) in pairs {
        builder.insert(key.as_bytes(), value).unwrap();
    }
    builder.finish().unwrap()
}

#[test]
fn test_fstmap() {
    let source = {
        let mut fstmap_builder = FstMapBuilder::new().unwrap();
        fstmap_builder.insert("abc".as_bytes(), &34u32).unwrap();
        fstmap_builder.insert("abcd".as_bytes(), &346u32).unwrap();
        fstmap_builder.finish().unwrap()
    };
    let fstmap: FstMap<u32> = FstMap::from_source(source).unwrap();
    assert_eq!(fstmap.get("abc".as_bytes()), Some(34u32));
    assert_eq!(fstmap.get("abcd".as_bytes()), Some(346u32));
    let mut stream = fstmap.stream();
    assert_eq!(stream.next().unwrap(), ("abc".as_bytes().to_vec(), 34u32));
    assert_eq!(stream.next().unwrap(), ("abcd".as_bytes().to_vec(), 346u32));
    assert_eq!(stream.next(), None);
}

#[test]
fn absent_key_is_none() {
    let fstmap: FstMap<u32> = FstMap::from_source(build(&[("abc", 34), ("abcd", 346)])).unwrap();
    assert_eq!(fstmap.get("ab".as_bytes()), None);
    assert_eq!(fstmap.get("abcde".as_bytes()), None);
    assert_eq!(fstmap.get("".as_bytes()), None);
}

#[test]
fn stream_stays_at_end() {
    let fstmap: FstMap<u32> = FstMap::from_source(build(&[("a", 1)])).unwrap();
    let mut stream = fstmap.stream();
    assert_eq!(stream.next(), Some((b"a".to_vec(), 1)));
    assert_eq!(stream.next(), None);
    assert_eq!(stream.next(), None);
}

#[test]
fn image_ends_with_blob_and_its_length() {
    let image = build(&[("abc", 34), ("abcd", 346)]);
    let n = image.len();
    assert_eq!(&image[n - 4..], &[8u8, 0, 0, 0]);
    assert_eq!(&image[n - 12..n - 4], &[34u8, 0, 0, 0, 0x5a, 0x01, 0, 0]);
}

#[test]
fn empty_dictionary_round_trips() {
    let image = build(&[]);
    let n = image.len();
    assert_eq!(&image[n - 4..], &[0u8, 0, 0, 0]);
    let fstmap: FstMap<u32> = FstMap::from_source(image).unwrap();
    assert_eq!(fstmap.get("abc".as_bytes()), None);
    assert_eq!(fstmap.stream().next(), None);
}

#[test]
fn many_keys_come_back_in_order() {
    let keys = ["", "a", "aa", "ab", "b", "ba", "c", "zebra", "zz"];
    let mut builder: FstMapBuilder<u64> = FstMapBuilder::new().unwrap();
    for (i, key) in keys.iter().enumerate() {
        builder.insert(key.as_bytes(), &(1000 * i as u64 + 7)).unwrap();
    }
    let fstmap: FstMap<u64> = FstMap::from_source(builder.finish().unwrap()).unwrap();
    for (i, key) in keys.iter().enumerate() {
        assert_eq!(fstmap.get(key.as_bytes()), Some(1000 * i as u64 + 7));
    }
    let mut stream = fstmap.stream();
    for (i, key) in keys.iter().enumerate() {
        assert_eq!(stream.next(), Some((key.as_bytes().to_vec(), 1000 * i as u64 + 7)));
    }
    assert_eq!(stream.next(), None);
}

#[test]
fn out_of_order_key_is_refused() {
    let mut builder: FstMapBuilder<u32> = FstMapBuilder::new().unwrap();
    assert_eq!(builder.insert(b"b", &1), Ok(()));
    assert_eq!(builder.insert(b"a", &2), Err(DictError::OrderViolation));
    assert_eq!(builder.insert(b"c", &3), Ok(()));
    let fstmap: FstMap<u32> = FstMap::from_source(builder.finish().unwrap()).unwrap();
    assert_eq!(fstmap.get(b"a"), None);
    assert_eq!(fstmap.get(b"b"), Some(1));
    assert_eq!(fstmap.get(b"c"), Some(3));
}

#[test]
fn duplicate_key_is_refused() {
    let mut builder: FstMapBuilder<u32> = FstMapBuilder::new().unwrap();
    assert_eq!(builder.insert(b"abc", &1), Ok(()));
    assert_eq!(builder.insert(b"abc", &2), Err(DictError::OrderViolation));
    let fstmap: FstMap<u32> = FstMap::from_source(builder.finish().unwrap()).unwrap();
    assert_eq!(fstmap.get(b"abc"), Some(1));
    let mut stream = fstmap.stream();
    assert_eq!(stream.next(), Some((b"abc".to_vec(), 1)));
    assert_eq!(stream.next(), None);
}

#[test]
fn prefix_sorts_before_extension() {
    let mut builder: FstMapBuilder<u32> = FstMapBuilder::new().unwrap();
    assert_eq!(builder.insert(b"abcd", &1), Ok(()));
    assert_eq!(builder.insert(b"abc", &2), Err(DictError::OrderViolation));
}

#[test]
fn short_source_is_corrupt() {
    assert!(matches!(FstMap::<u32>::from_source(vec![]), Err(DictError::CorruptData)));
    assert!(matches!(FstMap::<u32>::from_source(vec![0, 0, 0]), Err(DictError::CorruptData)));
}

#[test]
fn footer_beyond_source_is_corrupt() {
    let mut image = build(&[("abc", 34)]);
    let n = image.len();
    image[n - 4..].copy_from_slice(&(n as u32).to_le_bytes());
    assert!(matches!(FstMap::<u32>::from_source(image), Err(DictError::CorruptData)));
}

#[test]
fn unparsable_automaton_is_corrupt() {
    let mut image = vec![0u8; 48];
    image.extend_from_slice(&[0, 0, 0, 0]);
    assert!(matches!(FstMap::<u32>::from_source(image), Err(DictError::CorruptData)));
    assert!(matches!(FstMap::<u32>::from_source(vec![1, 2, 3, 4, 4, 0, 0, 0]), Err(DictError::CorruptData)));
}

#[test]
fn u32_codec_is_little_endian() {
    let mut sink = vec![9u8];
    0x0102_0304u32.serialize(&mut sink);
    assert_eq!(sink, vec![9, 4, 3, 2, 1]);
    assert_eq!(u32::deserialize(&sink, 1), Some(0x0102_0304));
    assert_eq!(u32::deserialize(&sink, 0), Some(0x0203_0409));
    assert_eq!(u32::deserialize(&sink, 2), None);
}

#[test]
fn u64_codec_is_little_endian() {
    let mut sink = Vec::new();
    0x0102_0304_0506_0708u64.serialize(&mut sink);
    assert_eq!(sink, vec![8, 7, 6, 5, 4, 3, 2, 1]);
    assert_eq!(u64::deserialize(&sink, 0), Some(0x0102_0304_0506_0708));
    assert_eq!(u64::deserialize(&sink, 1), None);
}

#[test]
fn split_source_follows_the_footer() {
    let image = vec![7u8, 8, 9, 10, 11, 2, 0, 0, 0];
    assert_eq!(split_source(&image), Some((vec![7, 8, 9], vec![10, 11])));
    assert_eq!(split_source(&[0, 0, 0, 0]), Some((vec![], vec![])));
    assert_eq!(split_source(&[5, 1, 0, 0, 0]), Some((vec![], vec![5])));
    assert_eq!(split_source(&[5, 2, 0, 0, 0]), None);
    assert_eq!(split_source(&[5, 0, 1, 0, 0]), None);
    assert_eq!(split_source(&[0, 0, 0]), None);
    assert_eq!(split_source(&[]), None);
}

#[test]
fn seal_image_appends_blob_and_length() {
    assert_eq!(seal_image(vec![1, 2], &[9]), vec![1, 2, 9, 1, 0, 0, 0]);
    assert_eq!(seal_image(vec![], &[]), vec![0, 0, 0, 0]);
    let blob = vec![3u8; 258];
    let image = seal_image(vec![1], &blob);
    assert_eq!(image.len(), 1 + 258 + 4);
    assert_eq!(&image[259..], &[2u8, 1, 0, 0]);
    assert_eq!(split_source(&image), Some((vec![1], blob)));
}

#[test]
fn building_in_order_never_fails() {
    let built: Result<FstMapBuilder<u32>, DictError> = FstMapBuilder::new();
    assert!(built.is_ok());
    let mut builder = built.ok().unwrap();
    assert_eq!(builder.insert(b"", &1), Ok(()));
    assert_eq!(builder.insert(b"\x00", &2), Ok(()));
    assert_eq!(builder.insert(b"\x00\x00", &3), Ok(()));
    assert_eq!(builder.insert(b"\xff", &4), Ok(()));
    assert_eq!(builder.insert(b"\xff", &5), Err(DictError::OrderViolation));
    assert_eq!(builder.insert(b"\xfe\xff", &6), Err(DictError::OrderViolation));
    let image = builder.finish();
    assert!(image.is_ok());
    let image = image.unwrap();
    let n = image.len();
    assert_eq!(&image[n - 4..], &[16u8, 0, 0, 0]);
    assert_eq!(&image[n - 20..n - 4], &[1u8, 0, 0, 0, 2, 0, 0, 0, 3, 0, 0, 0, 4, 0, 0, 0]);
}

#[test]
fn built_dictionary_is_well_formed() {
    let fstmap: FstMap<u32> = FstMap::from_source(build(&[("abc", 34), ("abcd", 346)])).unwrap();
    assert!(fstmap.is_well_formed());
    let empty: FstMap<u32> = FstMap::from_source(build(&[])).unwrap();
    assert!(empty.is_well_formed());
}

#[test]
fn short_blob_is_not_well_formed() {
    let (index, blob) = split_source(&build(&[("abc", 34), ("abcd", 346)])).unwrap();
    assert_eq!(blob.len(), 8);
    let cut: FstMap<u32> = FstMap::from_source(seal_image(index.clone(), &blob[..6])).unwrap();
    assert!(!cut.is_well_formed());
    let wide: FstMap<u64> = FstMap::from_source(seal_image(index.clone(), &blob)).unwrap();
    assert!(!wide.is_well_formed());
    let whole: FstMap<u32> = FstMap::from_source(seal_image(index, &blob)).unwrap();
    assert!(whole.is_well_formed());
}

#[test]
fn sorts_before_is_lexicographic() {
    assert!(sorts_before(b"abc", b"abcd"));
    assert!(sorts_before(b"", b"a"));
    assert!(sorts_before(b"ab", b"b"));
    assert!(sorts_before(b"a\x00", b"a\x01"));
    assert!(sorts_before(b"\x7f", b"\x80"));
    assert!(!sorts_before(b"abc", b"abc"));
    assert!(!sorts_before(b"abcd", b"abc"));
    assert!(!sorts_before(b"b", b"ab"));
    assert!(!sorts_before(b"", b""));
    assert!(!sorts_before(b"a", b""));
}
