use segment_search::collector::{
    flatten_in_order, BytesFastFieldTestCollector, CollectDocScore, Collector,
    FastFieldTestCollector, SegmentCollector, TestCollector, TestFruit,
};
use segment_search::segment::{
    CollectError, DocAddress, FastFieldColumn, Field, Score, SegmentReader,
};

fn score(value: f32) -> Score {
    Score::from_bits(value.to_bits())
}

fn segment() -> SegmentReader {
    SegmentReader::new(vec![
        FastFieldColumn::Numeric(vec![10, 20, 30, 40]),
        FastFieldColumn::Bytes(vec![b"ab".to_vec(), vec![], b"cde".to_vec()]),
    ])
}

fn fruit_of(segment_ord: u32, docs: &[(u32, f32)]) -> TestFruit {
    let collector = TestCollector::default();
    let mut child = collector.for_segment(segment_ord, &segment()).unwrap();
    for (doc, s) in docs {
        child.collect(*doc, score(*s));
    }
    child.harvest()
}

#[test]
fn doc_score_collector_records_addresses_and_scores() {
    let fruit = fruit_of(3, &[(1, 0.5), (4, 1.5)]);
    assert_eq!(fruit.docs(), &[DocAddress(3, 1), DocAddress(3, 4)]);
    assert_eq!(fruit.scores(), &[score(0.5), score(1.5)]);
    assert_eq!(fruit.docs()[0].segment_ord(), 3);
    assert_eq!(fruit.docs()[1].doc(), 4);
    assert_eq!(f32::from_bits(fruit.scores()[1].to_bits()), 1.5);
    assert!(TestCollector::default().requires_scoring());
}

#[test]
fn merge_orders_by_first_segment() {
    let children = vec![
        fruit_of(2, &[(0, 2.0), (5, 2.5)]),
        fruit_of(0, &[(1, 0.25), (3, 0.75)]),
        fruit_of(1, &[]),
    ];
    let merged = TestCollector::default().merge_fruits(children);
    assert_eq!(
        merged.docs(),
        &[DocAddress(0, 1), DocAddress(0, 3), DocAddress(2, 0), DocAddress(2, 5)]
    );
    assert_eq!(merged.scores(), &[score(0.25), score(0.75), score(2.0), score(2.5)]);
}

#[test]
fn merge_is_the_same_for_every_arrival_order() {
    let orders: [[u32; 3]; 6] = [[0, 1, 2], [0, 2, 1], [1, 0, 2], [1, 2, 0], [2, 0, 1], [2, 1, 0]];
    for order in orders.iter() {
        let children: Vec<TestFruit> = order
            .iter()
            .map(|ord| fruit_of(*ord + 1, &[(7, *ord as f32), (9, 0.5)]))
            .collect();
        let merged = TestCollector::default().merge_fruits(children);
        assert_eq!(
            merged.docs(),
            &[
                DocAddress(1, 7),
                DocAddress(1, 9),
                DocAddress(2, 7),
                DocAddress(2, 9),
                DocAddress(3, 7),
                DocAddress(3, 9)
            ]
        );
        assert_eq!(
            merged.scores(),
            &[score(0.0), score(0.5), score(1.0), score(0.5), score(2.0), score(0.5)]
        );
    }
}

#[test]
fn merge_keeps_arrival_order_among_equal_ordinals() {
    let children = vec![
        fruit_of(1, &[(1, 1.0)]),
        fruit_of(0, &[(2, 2.0)]),
        fruit_of(5, &[]),
        fruit_of(0, &[(3, 3.0)]),
    ];
    let merged = TestCollector::default().merge_fruits(children);
    assert_eq!(merged.docs(), &[DocAddress(0, 2), DocAddress(0, 3), DocAddress(1, 1)]);
    assert_eq!(merged.scores(), &[score(2.0), score(3.0), score(1.0)]);
}

#[test]
fn merge_of_nothing_is_empty() {
    let merged = TestCollector::default().merge_fruits(vec![]);
    assert!(merged.docs().is_empty());
    assert!(merged.scores().is_empty());
    let fruit = TestFruit::default();
    assert!(fruit.docs().is_empty());
    assert!(fruit.scores().is_empty());
}

#[test]
fn fast_field_collector_reads_the_column() {
    let collector = FastFieldTestCollector::for_field(Field(0));
    assert!(!collector.requires_scoring());
    let mut child = collector.for_segment(0, &segment()).unwrap();
    child.collect(1, score(0.0));
    child.collect(3, score(0.0));
    assert_eq!(child.harvest(), vec![20, 40]);
}

#[test]
fn fast_field_merge_keeps_the_given_order() {
    let collector = FastFieldTestCollector::for_field(Field(0));
    let merged = collector.merge_fruits(vec![vec![5, 1], vec![], vec![9], vec![2, 2]]);
    assert_eq!(merged, vec![5, 1, 9, 2, 2]);
    assert_eq!(flatten_in_order(&vec![vec![3u8], vec![1u8, 2u8]]), vec![3, 1, 2]);
}

#[test]
fn bytes_collector_appends_raw_bytes() {
    let collector = BytesFastFieldTestCollector::for_field(Field(1));
    assert!(!collector.requires_scoring());
    let mut child = collector.for_segment(0, &segment()).unwrap();
    child.collect(0, score(0.0));
    child.collect(1, score(0.0));
    child.collect(2, score(0.0));
    assert_eq!(child.harvest(), b"abcde".to_vec());
}

#[test]
fn bytes_merge_keeps_the_given_order() {
    let collector = BytesFastFieldTestCollector::for_field(Field(1));
    let merged = collector.merge_fruits(vec![b"zz".to_vec(), b"a".to_vec(), b"mm".to_vec()]);
    assert_eq!(merged, b"zzamm".to_vec());
}

#[test]
fn missing_column_aborts() {
    let reader = segment();
    assert!(matches!(
        FastFieldTestCollector::for_field(Field(1)).for_segment(0, &reader),
        Err(CollectError::MissingResource)
    ));
    assert!(matches!(
        FastFieldTestCollector::for_field(Field(2)).for_segment(0, &reader),
        Err(CollectError::MissingResource)
    ));
    assert!(matches!(
        BytesFastFieldTestCollector::for_field(Field(0)).for_segment(0, &reader),
        Err(CollectError::MissingResource)
    ));
    assert!(matches!(
        BytesFastFieldTestCollector::for_field(Field(9)).for_segment(0, &reader),
        Err(CollectError::MissingResource)
    ));
}

#[test]
fn segment_readers_give_random_access() {
    let reader = segment();
    let numbers = reader.fast_field_reader(Field(0)).ok().unwrap();
    assert_eq!(numbers.get(0), 10);
    assert_eq!(numbers.get(3), 40);
    let bytes = reader.bytes_fast_field_reader(Field(1)).ok().unwrap();
    assert_eq!(bytes.get_val(2), b"cde");
    assert_eq!(bytes.get_val(1), b"");
}
