use seglog::codec::Error;
use seglog::topic::parse_segment_index;
use seglog::topic::Topic;

#[test]
fn test_topic_iter() {
    let path = "./test_data/topics/test_topic_iter";

    let mut topic = Topic::new(path, 64);

    let message_1 = vec![0, 1];
    let message_2 = vec![1, 2];

    topic.produce(&message_1).unwrap();
    topic.close();

    topic.produce(&message_2).unwrap();
    topic.close();

    let mut iter = topic.iter();
    let actual_messages = vec![iter.next(&topic), iter.next(&topic), iter.next(&topic)];
    assert_eq!(actual_messages[0], Some(message_1));
    assert_eq!(actual_messages[1], Some(message_2));
    assert_eq!(actual_messages[2], None);
}

#[test]
fn test_topic_iter_two_segments_ends() {
    // produce, close, produce, close: the iterator yields both messages in
    // order, then stays at the end
    let mut topic = Topic::new("./test_data/topics/test_topic_two", 16);
    topic.produce(&[0, 1]).unwrap();
    topic.close();
    topic.produce(&[1, 2]).unwrap();
    topic.close();

    let mut iter = topic.iter();
    assert_eq!(iter.next(&topic), Some(vec![0, 1]));
    assert_eq!(iter.next(&topic), Some(vec![1, 2]));
    assert_eq!(iter.next(&topic), None);
    assert_eq!(iter.next(&topic), None);
}

#[test]
fn test_topic_round_trip_order() {
    // several messages across packed and split chunks come back byte-exact
    let mut topic = Topic::new("./test_data/topics/test_topic_round_trip", 16);
    let messages: Vec<Vec<u8>> = vec![
        vec![42],
        vec![0, 1, 2, 3, 4],
        vec![0, 1, 2, 3, 4, 5, 6, 7, 8, 9, 10, 11, 12, 13],
        vec![7],
    ];
    for m in &messages {
        topic.produce(m).unwrap();
    }
    topic.close();
    let mut iter = topic.iter();
    for m in &messages {
        assert_eq!(iter.next(&topic), Some(m.clone()));
    }
    assert_eq!(iter.next(&topic), None);
}

#[test]
fn test_topic_empty_message_refused() {
    let mut topic = Topic::new("./test_data/topics/test_topic_empty", 16);
    assert_eq!(topic.produce(&[]), Err(Error::EmptyMessage));
    let mut iter = topic.iter();
    assert_eq!(iter.next(&topic), None);
}

#[test]
fn test_topic_segment_names() {
    let mut topic = Topic::new("./test_data/topics/test_topic_names", 16);
    topic.produce(&[1]).unwrap();
    topic.close();
    topic.produce(&[2]).unwrap();
    topic.close();
    assert_eq!(topic.segments.len(), 2);
    assert_eq!(topic.segments[0].index, 0);
    assert_eq!(topic.segments[1].index, 1);
    assert_eq!(
        topic.segments[0].path,
        "./test_data/topics/test_topic_names/segment_000000000"
    );
    assert_eq!(
        topic.segments[1].path,
        "./test_data/topics/test_topic_names/segment_000000001"
    );
    // message indices chain across segments with no gap
    assert_eq!(topic.segments[0].start_offset, 0);
    assert_eq!(topic.segments[0].next_offset, 1);
    assert_eq!(topic.segments[1].start_offset, 1);
    assert_eq!(topic.segments[1].next_offset, 2);
}

#[test]
fn test_parse_segment_index() {
    assert_eq!(parse_segment_index(b"segment_000000000"), Some(0));
    assert_eq!(parse_segment_index(b"segment_000000042"), Some(42));
    assert_eq!(parse_segment_index(b"segment_1000000000"), Some(1_000_000_000));
    assert_eq!(parse_segment_index(b"segment_"), None);
    // fewer than nine digits is not a segment name
    assert_eq!(parse_segment_index(b"segment_1"), None);
    assert_eq!(parse_segment_index(b"segment_00000001"), None);
    assert_eq!(parse_segment_index(b"segment_12a"), None);
    assert_eq!(parse_segment_index(b"segment_00000000x"), None);
    assert_eq!(parse_segment_index(b"segXent_000000000"), None);
    assert_eq!(parse_segment_index(b"other_000000000"), None);
    assert_eq!(parse_segment_index(b"segment_18446744073709551615"), Some(u64::MAX));
    assert_eq!(parse_segment_index(b"segment_18446744073709551616"), None);
}

#[test]
fn test_from_recovered_round_trip() {
    let dir = "./test_data/topics/test_from_recovered";
    let mut topic = Topic::new(dir, 16);
    let messages: Vec<Vec<u8>> = vec![vec![1, 2, 3], vec![4; 20]];
    topic.produce(&messages[0]).unwrap();
    topic.close();
    topic.produce(&messages[1]).unwrap();
    topic.close();

    let segments: Vec<_> = topic
        .segments
        .iter()
        .zip(topic.files.iter())
        .map(|(info, file)| (info.clone(), file.clone()))
        .collect();
    let recovered = Topic::from_recovered(dir, 16, segments).unwrap();
    let mut iter = recovered.iter();
    assert_eq!(iter.next(&recovered), Some(messages[0].clone()));
    assert_eq!(iter.next(&recovered), Some(messages[1].clone()));
    assert_eq!(iter.next(&recovered), None);
}

#[test]
fn test_from_recovered_refuses_wrong_block_size() {
    let dir = "./test_data/topics/test_from_recovered_bs";
    let mut topic = Topic::new(dir, 16);
    topic.produce(&[1]).unwrap();
    topic.close();
    let segments: Vec<_> = topic
        .segments
        .iter()
        .zip(topic.files.iter())
        .map(|(info, file)| (info.clone(), file.clone()))
        .collect();
    let recovered = Topic::from_recovered(dir, 32, segments);
    assert!(matches!(recovered, Err(Error::ShortRead)));
}
