use seglog::codec::{read_u32, ChunkType, Error, Persistable, LEN_OFFSET, NUM_HEADER_BYTES,
    PAYLOAD_OFFSET, TYPE_OFFSET};
use seglog::segment::{read_message, SegmentInfo, SegmentWriter, FOOTER_BYTE_COUNT};

fn write_messages_to_segment(
    path: &str,
    buffer_size: u64,
    messages: &[&[u8]],
) -> (Vec<u8>, SegmentInfo, Vec<u8>) {
    let segment_info = SegmentInfo::new(path, 0, 0, buffer_size);
    let mut seg_writer = SegmentWriter::new(segment_info);

    for message in messages {
        seg_writer.append(message).unwrap();
    }

    let snapshot = seg_writer.segment_info_snapshot();
    let (_, full_file) = seg_writer.close();
    let mut segment_bytes = full_file.clone();
    let num_payload_bytes = segment_bytes.len() - FOOTER_BYTE_COUNT;
    segment_bytes.truncate(num_payload_bytes);

    (segment_bytes, snapshot, full_file)
}

fn validate_full_message(segment_bytes: &Vec<u8>, message: &[u8], offset: usize) {
    assert_eq!(
        u32::read_bytes(segment_bytes, offset + LEN_OFFSET).unwrap(),
        message.len() as u32
    );
    assert_eq!(segment_bytes[offset + TYPE_OFFSET], ChunkType::Full.as_byte());
    assert_eq!(
        message,
        &segment_bytes[(offset + PAYLOAD_OFFSET)..(offset + PAYLOAD_OFFSET + message.len())]
    );
}

fn validate_chunk_crc(segment_bytes: &Vec<u8>, offset: usize) {
    let len = u32::read_bytes(segment_bytes, offset + LEN_OFFSET).unwrap() as usize;
    let end = offset + NUM_HEADER_BYTES + len;
    let expected = crc::crc32::checksum_ieee(&segment_bytes[(offset + LEN_OFFSET)..end]);
    assert_eq!(read_u32(segment_bytes, offset), expected);
}

#[test]
fn test_single_append_full_initial() {
    let path = "./test_data/segments/test_single_append_full_initial";
    let message = vec![0, 1, 2, 3, 4];
    let (segment_bytes, segment_info, full_file) =
        write_messages_to_segment(path, 16, &[&message]);
    assert_eq!(segment_bytes.len(), 16);

    validate_full_message(&segment_bytes, &message, 0);
    validate_chunk_crc(&segment_bytes, 0);
    assert_eq!(segment_info, SegmentInfo::from_file(path, &full_file).unwrap());
    assert_eq!(segment_info.index, 0);
    assert_eq!(segment_info.start_offset, 0);
    assert_eq!(segment_info.next_offset, 1);
}

#[test]
fn test_single_append_split() {
    let path = "./test_data/segments/test_append_split";
    let message = vec![0, 1, 2, 3, 4, 5, 6, 7];

    let (segment_bytes, _, _) = write_messages_to_segment(path, 16, &[&message]);
    assert_eq!(segment_bytes.len(), 32);

    assert_eq!(u32::read_bytes(&segment_bytes, LEN_OFFSET).unwrap(), 7);
    assert_eq!(segment_bytes[TYPE_OFFSET], ChunkType::Start.as_byte());
    assert_eq!(message[0..7], segment_bytes[PAYLOAD_OFFSET..(PAYLOAD_OFFSET + 7)]);

    assert_eq!(u32::read_bytes(&segment_bytes, 16 + LEN_OFFSET).unwrap(), 1);
    assert_eq!(segment_bytes[16 + TYPE_OFFSET], ChunkType::End.as_byte());
    assert_eq!(message[7], segment_bytes[16 + PAYLOAD_OFFSET]);

    validate_chunk_crc(&segment_bytes, 0);
    validate_chunk_crc(&segment_bytes, 16);
}

#[test]
fn test_multi_append_full_initial() {
    let path = "./test_data/segments/test_multi_append_full_initial";
    let initial_message = vec![42];
    let seconday_message = vec![0, 1, 2, 3, 4];
    let (segment_bytes, _, _) =
        write_messages_to_segment(path, 32, &[&initial_message, &seconday_message]);
    assert_eq!(segment_bytes.len(), 32);

    // Initial message
    validate_full_message(&segment_bytes, &initial_message, 0);

    // Seconday message
    let secondary_message_offset = initial_message.len() + NUM_HEADER_BYTES;
    assert_eq!(
        u32::read_bytes(&segment_bytes, secondary_message_offset + LEN_OFFSET).unwrap(),
        seconday_message.len() as u32
    );
    assert_eq!(
        segment_bytes[secondary_message_offset + TYPE_OFFSET],
        ChunkType::Full.as_byte()
    );
    let actual_secondary_message = &segment_bytes[secondary_message_offset + PAYLOAD_OFFSET
        ..(secondary_message_offset + PAYLOAD_OFFSET + seconday_message.len())];
    assert_eq!(&seconday_message[0..seconday_message.len()], actual_secondary_message);
    validate_chunk_crc(&segment_bytes, 0);
    validate_chunk_crc(&segment_bytes, secondary_message_offset);
}

#[test]
fn test_multi_append_partial_initial() {
    let path = "./test_data/segments/test_multi_append_partial_initial";
    let initial_message = vec![42]; // 10 bytes
    let seconday_message = vec![0, 1, 2, 3, 4, 5, 6, 7, 8, 9, 10, 11, 12, 13]; // 23 bytes
    let (segment_bytes, _, _) =
        write_messages_to_segment(path, 32, &[&initial_message, &seconday_message]); // 10 + 23 > 32
    assert_eq!(segment_bytes.len(), 64);

    // Inital message
    validate_full_message(&segment_bytes, &initial_message, 0);

    // Secondary message head
    let head_offset = initial_message.len() + NUM_HEADER_BYTES;
    assert_eq!(u32::read_bytes(&segment_bytes, head_offset + LEN_OFFSET).unwrap(), 13);
    assert_eq!(segment_bytes[head_offset + TYPE_OFFSET], ChunkType::Start.as_byte());
    let actual_secondary_message =
        &segment_bytes[(head_offset + PAYLOAD_OFFSET)..(head_offset + PAYLOAD_OFFSET + 13)];
    assert_eq!(&seconday_message[0..13], actual_secondary_message);

    // Seconday message tail
    let tail_offset = 32;
    assert_eq!(u32::read_bytes(&segment_bytes, tail_offset + LEN_OFFSET).unwrap(), 1);
    assert_eq!(segment_bytes[tail_offset + TYPE_OFFSET], ChunkType::End.as_byte());
    let actual_secondary_message =
        &segment_bytes[tail_offset + PAYLOAD_OFFSET..(tail_offset + PAYLOAD_OFFSET + 1)];
    assert_eq!(&seconday_message[13..14], actual_secondary_message);
    validate_chunk_crc(&segment_bytes, 0);
    validate_chunk_crc(&segment_bytes, head_offset);
    validate_chunk_crc(&segment_bytes, tail_offset);
}

#[test]
fn test_multi_append_none_initial() {
    let path = "./test_data/segments/test_multi_append_none_initial";
    let initial_message = vec![42];
    let seconday_message = vec![0, 1, 2, 3, 4];
    let (segment_bytes, _, _) =
        write_messages_to_segment(path, 16, &[&initial_message, &seconday_message]);
    assert_eq!(segment_bytes.len(), 32);

    // Initial message
    validate_full_message(&segment_bytes, &initial_message, 0);

    // Seconday message
    let secondary_message_offset = 16;
    assert_eq!(
        u32::read_bytes(&segment_bytes, secondary_message_offset + LEN_OFFSET).unwrap(),
        seconday_message.len() as u32
    );
    assert_eq!(
        segment_bytes[secondary_message_offset + TYPE_OFFSET],
        ChunkType::Full.as_byte()
    );
    let actual_secondary_message = &segment_bytes[secondary_message_offset + PAYLOAD_OFFSET
        ..(secondary_message_offset + PAYLOAD_OFFSET + seconday_message.len())];
    assert_eq!(&seconday_message[0..seconday_message.len()], actual_secondary_message);
}

#[test]
fn test_iter_closed_segment() {
    let path = "./test_data/segments/test_iter_closed_segment";
    let initial_message = vec![42]; // 10 bytes
    let seconday_message = vec![0, 1, 2, 3, 4]; // 14 bytes
    let (segment_bytes, segment, _) =
        write_messages_to_segment(path, 16, &[&initial_message, &seconday_message]);

    let mut iter = segment.iter();

    assert_eq!(iter.next(&segment_bytes), Some(initial_message)); // Full message
    assert_eq!(iter.next(&segment_bytes), Some(seconday_message)); // Split message
    assert_eq!(iter.next(&segment_bytes), None);
    assert_eq!(iter.next(&segment_bytes), None);
}

#[test]
fn test_iter_open_segment() {
    let path = "./test_data/segments/test_iter_open_segment";
    let first_message = vec![42]; // 10 bytes
    let second_message = vec![0, 1, 2, 3, 4]; // 14 bytes
    let third_message = vec![56]; // 10 bytes

    let segment_info = SegmentInfo::new(path, 0, 0, 32);
    let mut segment = SegmentWriter::new(segment_info);
    segment.append(&first_message).unwrap();

    let mut iter = segment.segment_info_snapshot().iter();
    let read_one = iter.next(segment.file_bytes()); // Read *before* next message is written

    segment.append(&second_message).unwrap(); // Written *after* iter buffer has been filled

    let read_two = iter.next(segment.file_bytes());
    let read_three = iter.next(segment.file_bytes());

    assert_eq!(read_one, Some(first_message)); // Full message
    assert_eq!(read_two, Some(second_message)); // Split message
    assert_eq!(read_three, None);

    segment.append(&third_message).unwrap();
    let read_four = iter.next(segment.file_bytes());
    assert_eq!(read_four, Some(third_message));
}

#[test]
fn test_append_empty_message_refused() {
    let segment_info = SegmentInfo::new("./test_data/segments/test_empty", 0, 0, 16);
    let mut writer = SegmentWriter::new(segment_info);
    assert_eq!(writer.append(&[]), Err(Error::EmptyMessage));
    assert_eq!(writer.file_bytes().len(), 0);
}

#[test]
fn test_from_file_missing_magic() {
    let bytes = vec![0u8; 40];
    assert_eq!(
        SegmentInfo::from_file("./test_data/segments/no_magic", &bytes),
        Err(Error::MissingMagic)
    );
}

#[test]
fn test_from_file_short_read() {
    let bytes = vec![0u8; 10];
    assert_eq!(
        SegmentInfo::from_file("./test_data/segments/short", &bytes),
        Err(Error::ShortRead)
    );
}

#[test]
fn test_footer_round_trip() {
    let path = "./test_data/segments/test_footer_round_trip";
    let segment_info = SegmentInfo::new(path, 7, 21, 16);
    let mut writer = SegmentWriter::new(segment_info);
    writer.append(&[9, 9, 9]).unwrap();
    let snapshot = writer.segment_info_snapshot();
    let (closed_info, full_file) = writer.close();
    assert_eq!(snapshot, closed_info);
    let reloaded = SegmentInfo::from_file(path, &full_file).unwrap();
    assert_eq!(reloaded, snapshot);
    assert_eq!(reloaded.index, 7);
    assert_eq!(reloaded.buffer_size, 16);
    assert_eq!(reloaded.start_offset, 21);
    assert_eq!(reloaded.next_offset, 22);
}

#[test]
fn test_read_message_crc_mismatch() {
    let path = "./test_data/segments/test_crc_mismatch";
    let message = vec![1, 2, 3];
    let (mut segment_bytes, _, _) = write_messages_to_segment(path, 16, &[&message]);
    // intact bytes read back fine
    let mut payload = Vec::new();
    let ok = read_message(&segment_bytes, 0, &mut payload);
    assert_eq!(ok, Ok((ChunkType::Full, NUM_HEADER_BYTES + message.len())));
    assert_eq!(payload, message);
    // flip one payload byte: the stored CRC no longer matches
    segment_bytes[PAYLOAD_OFFSET] ^= 0xff;
    let mut corrupt_payload = Vec::new();
    let bad = read_message(&segment_bytes, 0, &mut corrupt_payload);
    assert_eq!(bad, Err(Error::CrcMismatch));
    assert_eq!(corrupt_payload.len(), 0);
}

#[test]
fn test_min_block_size_single_byte_chunks() {
    // the smallest legal block size leaves one payload byte per chunk
    let path = "./test_data/segments/test_min_block_size";
    let message = vec![5, 6, 7];
    let (segment_bytes, _, _) = write_messages_to_segment(path, 10, &[&message]);
    assert_eq!(segment_bytes.len(), 30);
    assert_eq!(segment_bytes[TYPE_OFFSET], ChunkType::Start.as_byte());
    assert_eq!(segment_bytes[10 + TYPE_OFFSET], ChunkType::Middle.as_byte());
    assert_eq!(segment_bytes[20 + TYPE_OFFSET], ChunkType::End.as_byte());
    assert_eq!(segment_bytes[PAYLOAD_OFFSET], 5);
    assert_eq!(segment_bytes[10 + PAYLOAD_OFFSET], 6);
    assert_eq!(segment_bytes[20 + PAYLOAD_OFFSET], 7);
    for offset in [0, 10, 20] {
        validate_chunk_crc(&segment_bytes, offset);
    }

    let (_, segment, _) = write_messages_to_segment(path, 10, &[&message]);
    let mut iter = segment.iter();
    assert_eq!(iter.next(&segment_bytes), Some(message));
    assert_eq!(iter.next(&segment_bytes), None);
}

#[test]
fn test_check_segment_data() {
    let path = "./test_data/segments/test_check_segment_data";
    let m1 = vec![42];
    let m2 = vec![0, 1, 2, 3, 4];
    let (mut segment_bytes, _, _) = write_messages_to_segment(path, 16, &[&m1, &m2]);

    // the produced bytes check out, with the right message count
    assert_eq!(seglog::segment::check_segment_data(&segment_bytes, 16), Ok(2));
    // a length that is no whole number of blocks is refused
    assert_eq!(
        seglog::segment::check_segment_data(&segment_bytes[..20], 16),
        Err(Error::ShortRead)
    );
    // a flipped payload byte is a CRC mismatch
    segment_bytes[PAYLOAD_OFFSET] ^= 0xff;
    assert_eq!(
        seglog::segment::check_segment_data(&segment_bytes, 16),
        Err(Error::CrcMismatch)
    );
}

#[test]
fn test_check_segment_data_incomplete_message() {
    // a Start chunk without its End is not a complete segment
    let path = "./test_data/segments/test_check_incomplete";
    let message = vec![0, 1, 2, 3, 4, 5, 6, 7];
    let (segment_bytes, _, _) = write_messages_to_segment(path, 16, &[&message]);
    assert_eq!(seglog::segment::check_segment_data(&segment_bytes, 16), Ok(1));
    // keep only the first block: the Start chunk dangles
    assert_eq!(
        seglog::segment::check_segment_data(&segment_bytes[..16], 16),
        Err(Error::ShortRead)
    );
}
