use termdict::common::BinarySerializable;
use termdict::common::DecodeError;
use termdict::common::VInt;
use termdict::termdict::order::term_equal;
use termdict::termdict::order::term_less;
use termdict::termdict::TermBound;
use termdict::termdict::TermDictionary;
use termdict::termdict::TermDictionaryBuilder;
use termdict::termdict::TermIndex;
use termdict::termdict::TermMerger;
use termdict::termdict::TermStreamer;

fn build_u32(pairs: &[(&[u8], u32)]) -> TermDictionary<u32> {
    let mut builder: TermDictionaryBuilder<u32> = TermDictionaryBuilder::new();
    for (term, value) in pairs {
        assert!(builder.can_insert(term));
        builder.insert(term, value);
    }
    builder.finish()
}

fn build_strings(pairs: &[(&[u8], &str)]) -> TermDictionary<String> {
    let mut builder: TermDictionaryBuilder<String> = TermDictionaryBuilder::new();
    for (term, value) in pairs {
        assert!(builder.can_insert(term));
        builder.insert(term, &String::from(*value));
    }
    builder.finish()
}

fn drain_u32(mut stream: TermStreamer<u32>) -> Vec<(Vec<u8>, u32)> {
    let mut out = Vec::new();
    while stream.advance() {
        out.push((stream.current_key().to_vec(), stream.current_value().unwrap()));
    }
    assert!(!stream.advance());
    assert!(!stream.has_current());
    out
}

fn keys_in(dict: &TermDictionary<u32>, lower: TermBound<Vec<u8>>, upper: TermBound<Vec<u8>>) -> Vec<Vec<u8>> {
    drain_u32(dict.range(lower, upper).into_stream()).into_iter().map(|(k, _)| k).collect()
}

fn abcd() -> TermDictionary<u32> {
    build_u32(&[(b"a", 1), (b"b", 2), (b"c", 3), (b"d", 4)])
}

fn words(list: &[&[u8]]) -> Vec<Vec<u8>> {
    list.iter().map(|w| w.to_vec()).collect()
}

#[test]
fn test_term_order() {
    assert!(term_less(b"a", b"b"));
    assert!(!term_less(b"b", b"a"));
    assert!(!term_less(b"a", b"a"));
    assert!(term_less(b"", b"a"));
    assert!(!term_less(b"", b""));
    assert!(term_less(b"a", b"aa"));
    assert!(!term_less(b"aa", b"a"));
    assert!(term_less(b"ab", b"b"));
    assert!(term_less(&[0x7f], &[0x80]));
    assert!(term_less(&[0x00, 0xff], &[0x01]));
    assert!(term_equal(b"abc", b"abc"));
    assert!(!term_equal(b"abc", b"abd"));
    assert!(!term_equal(b"abc", b"ab"));
    assert!(term_equal(b"", b""));
}

#[test]
fn test_index_insert_and_get() {
    let mut index = TermIndex::new();
    assert_eq!(index.len(), 0);
    assert_eq!(index.get(b"a"), None);
    assert!(index.can_insert(b""));
    index.insert(b"apple", 10);
    assert!(!index.can_insert(b"apple"));
    assert!(!index.can_insert(b"an"));
    assert!(index.can_insert(b"apples"));
    index.insert(b"banana", 20);
    index.insert(b"cherry", 5);
    assert_eq!(index.len(), 3);
    assert_eq!(index.get(b"apple"), Some(10));
    assert_eq!(index.get(b"banana"), Some(20));
    assert_eq!(index.get(b"cherry"), Some(5));
    assert_eq!(index.get(b"blueberry"), None);
    assert_eq!(index.get(b""), None);
    assert_eq!(index.get(b"zebra"), None);
    assert_eq!(index.term_at(1), &b"banana"[..]);
    assert_eq!(index.address_at(2), 5);
    assert_eq!(index.position(b"a"), 0);
    assert_eq!(index.position(b"apple"), 0);
    assert_eq!(index.position(b"b"), 1);
    assert_eq!(index.position(b"banana"), 1);
    assert_eq!(index.position(b"cherry"), 2);
    assert_eq!(index.position(b"d"), 3);
}

#[test]
fn test_index_bytes() {
    let mut index = TermIndex::new();
    index.insert(b"a", 1);
    index.insert(b"bc", 258);
    let mut buffer: Vec<u8> = Vec::new();
    let written = index.serialize(&mut buffer);
    assert_eq!(
        buffer,
        vec![0x82u8, 0x81, b'a', 1, 0, 0, 0, 0, 0, 0, 0, 0x82, b'b', b'c', 2, 1, 0, 0, 0, 0, 0, 0]
    );
    assert_eq!(written, buffer.len());
    buffer.push(0x55);
    let mut cursor = &buffer[..];
    let read = TermIndex::deserialize(&mut cursor).unwrap();
    assert_eq!(cursor, &[0x55u8][..]);
    assert_eq!(read.len(), 2);
    assert_eq!(read.get(b"a"), Some(1));
    assert_eq!(read.get(b"bc"), Some(258));
}

#[test]
fn test_index_rejects_unsorted_terms() {
    let unsorted: Vec<u8> = vec![0x82, 0x81, b'b', 1, 0, 0, 0, 0, 0, 0, 0, 0x81, b'a', 2, 0, 0, 0, 0, 0, 0, 0];
    let mut cursor = &unsorted[..];
    assert!(matches!(TermIndex::deserialize(&mut cursor), Err(DecodeError::InvalidData)));
    assert_eq!(cursor, &unsorted[..]);
    let repeated: Vec<u8> = vec![0x82, 0x81, b'a', 1, 0, 0, 0, 0, 0, 0, 0, 0x81, b'a', 2, 0, 0, 0, 0, 0, 0, 0];
    let mut cursor = &repeated[..];
    assert!(matches!(TermIndex::deserialize(&mut cursor), Err(DecodeError::InvalidData)));
    let truncated: Vec<u8> = vec![0x81, 0x81, b'a', 1, 0, 0];
    let mut cursor = &truncated[..];
    assert!(matches!(TermIndex::deserialize(&mut cursor), Err(DecodeError::UnexpectedEof)));
    assert_eq!(cursor, &truncated[..]);
}

#[test]
fn test_dictionary_sortedness() {
    let pairs: Vec<(&[u8], u32)> = vec![
        (b"", 0),
        (b"a", 17),
        (b"aa", 2),
        (b"ab", 40000),
        (b"b", 5),
        (&[0x80, 0xff], 9),
        (&[0xff], u32::max_value()),
    ];
    let dict = build_u32(&pairs);
    assert_eq!(dict.len(), pairs.len());
    let seen = drain_u32(dict.stream().into_stream());
    let expected: Vec<(Vec<u8>, u32)> = pairs.iter().map(|(t, v)| (t.to_vec(), *v)).collect();
    assert_eq!(seen, expected);
}

#[test]
fn test_lookup_correctness() {
    let dict = build_strings(&[(b"apple", "pomme"), (b"bear", ""), (b"cat", "chat noir")]);
    assert_eq!(dict.get_value(b"apple"), Ok(Some(String::from("pomme"))));
    assert_eq!(dict.get_value(b"bear"), Ok(Some(String::from(""))));
    assert_eq!(dict.get_value(b"cat"), Ok(Some(String::from("chat noir"))));
    assert_eq!(dict.get_value(b"dog"), Ok(None));
    assert_eq!(dict.get_value(b""), Ok(None));
    assert_eq!(dict.get_value(b"appl"), Ok(None));
    assert_eq!(dict.get_value(b"apples"), Ok(None));
    assert_eq!(dict.get(b"apple"), Some(0));
    assert_eq!(dict.get(b"bear"), Some(6));
    assert_eq!(dict.get(b"cat"), Some(7));
    assert_eq!(dict.get(b"dog"), None);
}

#[test]
fn test_addresses_are_offsets_into_the_blob() {
    let mut builder: TermDictionaryBuilder<VInt> = TermDictionaryBuilder::new();
    builder.insert(b"a", &VInt(1));
    builder.insert(b"b", &VInt(300));
    builder.insert(b"c", &VInt(u64::max_value()));
    builder.insert(b"d", &VInt(0));
    let dict = builder.finish();
    assert_eq!(dict.get(b"a"), Some(0));
    assert_eq!(dict.get(b"b"), Some(1));
    assert_eq!(dict.get(b"c"), Some(3));
    assert_eq!(dict.get(b"d"), Some(13));
    assert_eq!(dict.read_value(3), Ok(VInt(u64::max_value())));
    assert_eq!(dict.read_value(13), Ok(VInt(0)));
    assert_eq!(dict.read_value(14), Err(DecodeError::InvalidData));
    assert_eq!(dict.read_value(15), Err(DecodeError::InvalidData));
    assert_eq!(dict.read_value(u64::max_value()), Err(DecodeError::InvalidData));
}

#[test]
fn test_builder_refuses_terms_out_of_order() {
    let mut builder: TermDictionaryBuilder<u32> = TermDictionaryBuilder::new();
    assert!(builder.can_insert(b"m"));
    builder.insert(b"m", &1);
    assert!(!builder.can_insert(b"m"));
    assert!(!builder.can_insert(b"a"));
    assert!(!builder.can_insert(b""));
    assert!(builder.can_insert(b"ma"));
    assert!(builder.can_insert(b"n"));
}

#[test]
fn test_empty_dictionary() {
    let dict = build_u32(&[]);
    assert_eq!(dict.len(), 0);
    assert_eq!(dict.get(b"a"), None);
    assert_eq!(dict.get_value(b"a"), Ok(None));
    let mut stream = dict.stream().into_stream();
    assert!(!stream.has_current());
    assert!(!stream.advance());
    assert!(!stream.advance());
    let mut merger = TermMerger::new(vec![dict.stream().into_stream()]);
    assert!(!merger.advance());
    let mut nothing: TermMerger<u32> = TermMerger::new(Vec::new());
    assert!(!nothing.advance());
}

#[test]
fn test_range_bound_correctness() {
    let dict = abcd();
    let seen = drain_u32(dict.range(TermBound::Unbounded, TermBound::Unbounded).ge(b"b").lt(b"d").into_stream());
    assert_eq!(seen, vec![(b"b".to_vec(), 2u32), (b"c".to_vec(), 3u32)]);
    assert_eq!(
        keys_in(&dict, TermBound::Included(b"b".to_vec()), TermBound::Excluded(b"d".to_vec())),
        words(&[b"b", b"c"])
    );
}

#[test]
fn test_range_bounds_of_each_kind() {
    let dict = abcd();
    let inc = |t: &[u8]| TermBound::Included(t.to_vec());
    let exc = |t: &[u8]| TermBound::Excluded(t.to_vec());
    assert_eq!(keys_in(&dict, TermBound::Unbounded, TermBound::Unbounded), words(&[b"a", b"b", b"c", b"d"]));
    assert_eq!(keys_in(&dict, inc(b"b"), TermBound::Unbounded), words(&[b"b", b"c", b"d"]));
    assert_eq!(keys_in(&dict, exc(b"b"), TermBound::Unbounded), words(&[b"c", b"d"]));
    assert_eq!(keys_in(&dict, TermBound::Unbounded, inc(b"c")), words(&[b"a", b"b", b"c"]));
    assert_eq!(keys_in(&dict, TermBound::Unbounded, exc(b"c")), words(&[b"a", b"b"]));
    assert_eq!(keys_in(&dict, inc(b"b"), inc(b"c")), words(&[b"b", b"c"]));
    assert_eq!(keys_in(&dict, exc(b"b"), exc(b"c")), words(&[]));
    assert_eq!(keys_in(&dict, inc(b"b"), inc(b"b")), words(&[b"b"]));
    assert_eq!(keys_in(&dict, inc(b"b"), exc(b"b")), words(&[]));
    assert_eq!(keys_in(&dict, exc(b"b"), inc(b"b")), words(&[]));
    assert_eq!(keys_in(&dict, inc(b"c"), inc(b"b")), words(&[]));
    assert_eq!(keys_in(&dict, inc(b"d"), exc(b"a")), words(&[]));
    assert_eq!(keys_in(&dict, inc(b"ab"), inc(b"cz")), words(&[b"b", b"c"]));
    assert_eq!(keys_in(&dict, exc(b"ab"), exc(b"cz")), words(&[b"b", b"c"]));
    assert_eq!(keys_in(&dict, inc(b""), exc(b"a")), words(&[]));
    assert_eq!(keys_in(&dict, inc(b"e"), TermBound::Unbounded), words(&[]));
    assert_eq!(keys_in(&dict, exc(b"d"), TermBound::Unbounded), words(&[]));
    assert_eq!(keys_in(&dict, TermBound::Unbounded, exc(b"a")), words(&[]));
    assert_eq!(keys_in(&dict, TermBound::Unbounded, inc(b"a")), words(&[b"a"]));
}

#[test]
fn test_streamer_builder_replaces_bounds() {
    let dict = abcd();
    let keys = |s: TermStreamer<u32>| -> Vec<Vec<u8>> { drain_u32(s).into_iter().map(|(k, _)| k).collect() };
    assert_eq!(keys(dict.stream().gt(b"a").into_stream()), words(&[b"b", b"c", b"d"]));
    assert_eq!(keys(dict.stream().le(b"b").into_stream()), words(&[b"a", b"b"]));
    assert_eq!(keys(dict.stream().gt(b"a").le(b"c").into_stream()), words(&[b"b", b"c"]));
    assert_eq!(keys(dict.stream().ge(b"a").ge(b"c").into_stream()), words(&[b"c", b"d"]));
    assert_eq!(keys(dict.stream().lt(b"b").lt(b"d").into_stream()), words(&[b"a", b"b", b"c"]));
    assert_eq!(keys(dict.stream().lt(b"d").lt(b"b").into_stream()), words(&[b"a"]));
    assert_eq!(keys(dict.stream().ge(b"c").ge(b"a").into_stream()), words(&[b"a", b"b", b"c", b"d"]));
    assert_eq!(keys(dict.stream().le(b"a").lt(b"c").gt(b"c").ge(b"b").into_stream()), words(&[b"b"]));
}

#[test]
fn test_streamer_cursor() {
    let dict = abcd();
    let mut stream = dict.stream().ge(b"c").into_stream();
    assert!(!stream.has_current());
    assert!(stream.advance());
    assert!(stream.has_current());
    assert_eq!(stream.current_key(), &b"c"[..]);
    assert_eq!(stream.current_address(), 8);
    assert_eq!(stream.current_value(), Ok(3));
    assert!(stream.advance());
    assert_eq!(stream.current_key(), &b"d"[..]);
    assert_eq!(stream.current_address(), 12);
    assert_eq!(stream.current_value(), Ok(4));
    assert!(!stream.advance());
    assert!(!stream.has_current());
    assert!(!stream.advance());
}

#[test]
fn test_merge_correctness() {
    let first = build_u32(&[(b"a", 1), (b"c", 3)]);
    let second = build_u32(&[(b"b", 2), (b"c", 30)]);
    let dicts = [&first, &second];
    let mut merger = TermMerger::new(vec![first.stream().into_stream(), second.stream().into_stream()]);
    let mut seen: Vec<(Vec<u8>, Vec<(usize, u32)>)> = Vec::new();
    while merger.advance() {
        let values = merger
            .current_entries()
            .into_iter()
            .map(|(segment, address)| (segment, dicts[segment].read_value(address).unwrap()))
            .collect();
        seen.push((merger.key().to_vec(), values));
    }
    assert_eq!(
        seen,
        vec![
            (b"a".to_vec(), vec![(0usize, 1u32)]),
            (b"b".to_vec(), vec![(1usize, 2u32)]),
            (b"c".to_vec(), vec![(0usize, 3u32), (1usize, 30u32)]),
        ]
    );
    assert!(!merger.advance());
    assert!(!merger.advance());
}

#[test]
fn test_merge_addresses() {
    let first = build_u32(&[(b"a", 1), (b"c", 3)]);
    let second = build_u32(&[(b"b", 2), (b"c", 30)]);
    let mut merger = TermMerger::new(vec![first.stream().into_stream(), second.stream().into_stream()]);
    assert!(merger.advance());
    assert_eq!(merger.key(), &b"a"[..]);
    assert_eq!(merger.current_entries(), vec![(0usize, 0u64)]);
    assert!(merger.advance());
    assert_eq!(merger.key(), &b"b"[..]);
    assert_eq!(merger.current_entries(), vec![(1usize, 0u64)]);
    assert!(merger.advance());
    assert_eq!(merger.key(), &b"c"[..]);
    assert_eq!(merger.current_entries(), vec![(0usize, 4u64), (1usize, 4u64)]);
    assert!(!merger.advance());
}

#[test]
fn test_merge_of_many_streams() {
    let one = build_u32(&[(b"a", 1), (b"b", 2), (b"e", 5)]);
    let two = build_u32(&[]);
    let three = build_u32(&[(b"b", 20), (b"c", 30), (b"e", 50), (b"f", 60)]);
    let four = build_u32(&[(b"b", 200), (b"d", 400)]);
    let dicts = [&one, &two, &three, &four];
    let mut merger = TermMerger::new(vec![
        one.stream().into_stream(),
        two.stream().into_stream(),
        three.stream().lt(b"f").into_stream(),
        four.stream().into_stream(),
    ]);
    let mut seen: Vec<(Vec<u8>, Vec<(usize, u32)>)> = Vec::new();
    while merger.advance() {
        let values = merger
            .current_entries()
            .into_iter()
            .map(|(segment, address)| (segment, dicts[segment].read_value(address).unwrap()))
            .collect();
        seen.push((merger.key().to_vec(), values));
    }
    assert_eq!(
        seen,
        vec![
            (b"a".to_vec(), vec![(0usize, 1u32)]),
            (b"b".to_vec(), vec![(0usize, 2u32), (2usize, 20u32), (3usize, 200u32)]),
            (b"c".to_vec(), vec![(2usize, 30u32)]),
            (b"d".to_vec(), vec![(3usize, 400u32)]),
            (b"e".to_vec(), vec![(0usize, 5u32), (2usize, 50u32)]),
        ]
    );
}

#[test]
fn test_merge_takes_streams_where_they_stand() {
    let one = build_u32(&[(b"a", 1), (b"b", 2), (b"c", 3)]);
    let two = build_u32(&[(b"a", 10), (b"b", 20)]);
    let mut moved = one.stream().into_stream();
    assert!(moved.advance());
    let mut merger = TermMerger::new(vec![moved, two.stream().into_stream()]);
    assert!(merger.advance());
    assert_eq!(merger.key(), &b"a"[..]);
    assert_eq!(merger.current_entries(), vec![(1usize, 0u64)]);
    assert!(merger.advance());
    assert_eq!(merger.key(), &b"b"[..]);
    assert_eq!(merger.current_entries(), vec![(0usize, 4u64), (1usize, 4u64)]);
    assert!(merger.advance());
    assert_eq!(merger.key(), &b"c"[..]);
    assert_eq!(merger.current_entries(), vec![(0usize, 8u64)]);
    assert!(!merger.advance());
}

#[test]
fn test_dictionary_round_trip_through_bytes() {
    let dict = build_strings(&[(b"k1", "one"), (b"k2", "two"), (&[0xff, 0x00], "three")]);
    let mut buffer: Vec<u8> = Vec::new();
    let written = dict.serialize(&mut buffer);
    assert_eq!(written, buffer.len());
    buffer.extend_from_slice(b"tail");
    let mut cursor = &buffer[..];
    let read: TermDictionary<String> = TermDictionary::deserialize(&mut cursor).unwrap();
    assert_eq!(cursor, &b"tail"[..]);
    assert_eq!(read.len(), 3);
    assert_eq!(read.get_value(b"k1"), Ok(Some(String::from("one"))));
    assert_eq!(read.get_value(b"k2"), Ok(Some(String::from("two"))));
    assert_eq!(read.get_value(&[0xff, 0x00]), Ok(Some(String::from("three"))));
    assert_eq!(read.get_value(b"k3"), Ok(None));
    assert_eq!(read.get(b"k2"), dict.get(b"k2"));
}

#[test]
fn test_dictionary_bytes() {
    let dict = build_u32(&[(b"a", 7)]);
    let mut buffer: Vec<u8> = Vec::new();
    dict.serialize(&mut buffer);
    assert_eq!(buffer, vec![0x81u8, 0x81, b'a', 0, 0, 0, 0, 0, 0, 0, 0, 0x84, 7, 0, 0, 0]);
}

#[test]
fn test_dictionary_malformed() {
    let no_blob: Vec<u8> = vec![0x81, 0x81, b'a', 0, 0, 0, 0, 0, 0, 0, 0];
    let mut cursor = &no_blob[..];
    assert!(matches!(TermDictionary::<u32>::deserialize(&mut cursor), Err(DecodeError::InvalidData)));
    assert_eq!(cursor, &no_blob[..]);
    let short_blob: Vec<u8> = vec![0x80, 0x84, 7, 0];
    let mut cursor = &short_blob[..];
    assert!(matches!(TermDictionary::<u32>::deserialize(&mut cursor), Err(DecodeError::UnexpectedEof)));
    assert_eq!(cursor, &short_blob[..]);
    let empty: Vec<u8> = Vec::new();
    let mut cursor = &empty[..];
    assert!(matches!(TermDictionary::<u32>::deserialize(&mut cursor), Err(DecodeError::InvalidData)));
}

#[test]
fn test_corrupt_blob_is_reported_on_read() {
    let bytes: Vec<u8> = vec![0x82, 0x81, b'a', 0, 0, 0, 0, 0, 0, 0, 0, 0x81, b'b', 2, 0, 0, 0, 0, 0, 0, 0, 0x84, 0x81, b'x', 0x85, b'y'];
    let mut cursor = &bytes[..];
    let dict: TermDictionary<String> = TermDictionary::deserialize(&mut cursor).unwrap();
    assert!(cursor.is_empty());
    assert_eq!(dict.get_value(b"a"), Ok(Some(String::from("x"))));
    assert_eq!(dict.get_value(b"b"), Err(DecodeError::InvalidData));
    assert_eq!(dict.get_value(b"c"), Ok(None));
    let mut stream = dict.stream().into_stream();
    assert!(stream.advance());
    assert_eq!(stream.current_value(), Ok(String::from("x")));
    assert!(stream.advance());
    assert_eq!(stream.current_value(), Err(DecodeError::InvalidData));
}

#[test]
fn test_pair_values_in_a_dictionary() {
    let mut builder: TermDictionaryBuilder<(VInt, Vec<u8>)> = TermDictionaryBuilder::new();
    builder.insert(b"x", &(VInt(5), vec![1, 2, 3]));
    builder.insert(b"y", &(VInt(70000), vec![]));
    let dict = builder.finish();
    assert_eq!(dict.get_value(b"x"), Ok(Some((VInt(5), vec![1u8, 2, 3]))));
    assert_eq!(dict.get_value(b"y"), Ok(Some((VInt(70000), Vec::<u8>::new()))));
    assert_eq!(dict.get(b"y"), Some(5));
    let mut check: Vec<u8> = Vec::new();
    (VInt(5), vec![1u8, 2, 3]).serialize(&mut check);
    assert_eq!(check.len(), 5);
}
