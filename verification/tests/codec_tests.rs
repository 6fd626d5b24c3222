use seglog::codec::{read_u32, write_u32, ChunkType, Persistable};

#[test]
fn test_u32_write_read_round_trip() {
    let mut buffer = vec![0u8; 16];
    write_u32(&mut buffer, 0xdead_beef, 3);
    assert_eq!(read_u32(&buffer, 3), 0xdead_beef);
    let r = 0x0102_0304u32.write_bytes(&mut buffer, 12);
    assert!(r.is_ok());
    assert_eq!(u32::read_bytes(&buffer, 12).unwrap(), 0x0102_0304);
    assert_eq!(buffer[12], 4);
    assert_eq!(buffer[15], 1);
}

#[test]
fn test_u64_write_read_round_trip() {
    let mut buffer = vec![0u8; 9];
    let r = 0x1122_3344_5566_7788u64.write_bytes(&mut buffer, 1);
    assert!(r.is_ok());
    assert_eq!(u64::read_bytes(&buffer, 1).unwrap(), 0x1122_3344_5566_7788);
    assert_eq!(buffer[1], 0x88);
    assert_eq!(buffer[8], 0x11);
}

#[test]
fn test_u8_write_read_round_trip() {
    let mut buffer = vec![0u8; 2];
    let r = 42u8.write_bytes(&mut buffer, 1);
    assert!(r.is_ok());
    assert_eq!(u8::read_bytes(&buffer, 1).unwrap(), 42);
}

#[test]
fn test_write_fails_iff_out_of_bounds() {
    let mut buffer = vec![0u8; 8];
    // a u32 fits at offsets 0..=4 of an 8-byte buffer and nowhere later
    assert!(1u32.write_bytes(&mut buffer, 4).is_ok());
    assert!(1u32.write_bytes(&mut buffer, 5).is_err());
    assert!(u32::read_bytes(&buffer, 5).is_err());
    assert!(1u64.write_bytes(&mut buffer, 0).is_ok());
    assert!(1u64.write_bytes(&mut buffer, 1).is_err());
    assert!(u64::read_bytes(&buffer, 1).is_err());
    assert!(1u8.write_bytes(&mut buffer, 7).is_ok());
    assert!(1u8.write_bytes(&mut buffer, 8).is_err());
    assert!(u8::read_bytes(&buffer, 8).is_err());
    // failed writes leave the buffer alone
    let before = buffer.clone();
    assert!(7u32.write_bytes(&mut buffer, 6).is_err());
    assert_eq!(buffer, before);
}

#[test]
fn test_chunk_type_bytes() {
    assert_eq!(ChunkType::Null.as_byte(), 0);
    assert_eq!(ChunkType::Full.as_byte(), 1);
    assert_eq!(ChunkType::Start.as_byte(), 2);
    assert_eq!(ChunkType::Middle.as_byte(), 3);
    assert_eq!(ChunkType::End.as_byte(), 4);
    for b in 0u8..5u8 {
        assert_eq!(ChunkType::from_byte(b).as_byte(), b);
    }
}
