use drop_core::wire::{
    frame_u16, frame_u32, frames_u16_readable, read_frames_u16, u16_from_be_bytes, u16_to_be_bytes,
    u32_from_be_bytes, u32_to_be_bytes,
};

#[test]
fn u32_big_endian_bytes() {
    assert_eq!(u32_to_be_bytes(0x0102_0304), [1, 2, 3, 4]);
    assert_eq!(u32_to_be_bytes(0), [0, 0, 0, 0]);
    assert_eq!(u32_to_be_bytes(u32::MAX), [255, 255, 255, 255]);
    assert_eq!(u32_to_be_bytes(300), 300u32.to_be_bytes());
}

#[test]
fn u16_big_endian_bytes() {
    assert_eq!(u16_to_be_bytes(0x0102), [1, 2]);
    assert_eq!(u16_to_be_bytes(1024), 1024u16.to_be_bytes());
    assert_eq!(u16_to_be_bytes(u16::MAX), [255, 255]);
}

#[test]
fn big_endian_roundtrips() {
    for n in [0u32, 1, 255, 256, 65_535, 65_536, 0xdead_beef, u32::MAX] {
        assert_eq!(u32_from_be_bytes(u32_to_be_bytes(n)), n);
    }
    for n in [0u16, 1, 255, 256, 0xbeef, u16::MAX] {
        assert_eq!(u16_from_be_bytes(u16_to_be_bytes(n)), n);
    }
    assert_eq!(u32_from_be_bytes([0, 0, 1, 0]), 256);
    assert_eq!(u16_from_be_bytes([4, 0]), 1024);
}

#[test]
fn frame_u16_puts_length_in_front() {
    assert_eq!(frame_u16(&[7, 8, 9]), vec![0, 3, 7, 8, 9]);
    assert_eq!(frame_u16(&[]), vec![0, 0]);
}

#[test]
fn frame_u16_cuts_long_lengths_to_sixteen_bits() {
    let payload = vec![1u8; 65_537];
    let framed = frame_u16(&payload);
    assert_eq!(&framed[..2], &[0, 1]);
    assert_eq!(framed.len(), 65_539);
}

#[test]
fn frame_u32_puts_length_in_front() {
    assert_eq!(frame_u32(&[5, 6]), vec![0, 0, 0, 2, 5, 6]);
    let payload = vec![0u8; 70_000];
    let framed = frame_u32(&payload);
    assert_eq!(&framed[..4], &70_000u32.to_be_bytes());
}

#[test]
fn read_frames_reads_back_what_was_framed() {
    let payloads: Vec<Vec<u8>> = vec![vec![1, 2, 3], vec![4], vec![9; 300]];
    let mut stream = Vec::new();
    for p in &payloads {
        stream.extend(frame_u16(p));
    }
    assert!(frames_u16_readable(&stream));
    assert_eq!(read_frames_u16(&stream), payloads);
    assert!(frames_u16_readable(&[]));
    assert_eq!(read_frames_u16(&[]), Vec::<Vec<u8>>::new());
}

#[test]
fn read_frames_stops_at_the_end_of_the_stream() {
    // The stream ends right after a header: nothing more is taken.
    assert_eq!(read_frames_u16(&[0, 3]), Vec::<Vec<u8>>::new());
    assert_eq!(read_frames_u16(&[0, 1, 7, 0, 3]), vec![vec![7]]);
    // A payload cut short is taken as it is.
    assert_eq!(read_frames_u16(&[0, 3, 1, 2]), vec![vec![1, 2]]);
    // An empty payload in the middle is taken as empty.
    assert_eq!(read_frames_u16(&[0, 0, 0, 1, 5]), vec![vec![], vec![5]]);
}

#[test]
fn frames_with_a_header_cut_short_are_not_readable() {
    assert!(!frames_u16_readable(&[0]));
    assert!(!frames_u16_readable(&[0, 1, 5, 0]));
    assert!(frames_u16_readable(&[0, 1, 5, 0, 0]));
    assert!(frames_u16_readable(&[0, 3, 1, 2]));
}
