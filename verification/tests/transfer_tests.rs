use usb2snes::transfer::{chunk_bytes, DEFAULT_CHUNK_SIZE};

#[test]
fn chunking_empty_data_emits_no_frame() {
    let r = chunk_bytes(&[], DEFAULT_CHUNK_SIZE);
    assert!(r.is_empty());
}

#[test]
fn chunking_exact_multiple_has_full_last_chunk() {
    let data = vec![7u8; 2 * DEFAULT_CHUNK_SIZE];
    let r = chunk_bytes(&data, DEFAULT_CHUNK_SIZE);
    assert_eq!(r.len(), 2);
    assert_eq!(r[0].len(), DEFAULT_CHUNK_SIZE);
    assert_eq!(r[1].len(), DEFAULT_CHUNK_SIZE);
}

#[test]
fn chunking_remainder_has_short_last_chunk() {
    let data: Vec<u8> = (0..2500u32).map(|i| (i % 251) as u8).collect();
    let r = chunk_bytes(&data, DEFAULT_CHUNK_SIZE);
    assert_eq!(r.len(), 3);
    assert_eq!(r[0].len(), 1024);
    assert_eq!(r[1].len(), 1024);
    assert_eq!(r[2].len(), 2500 % 1024);
    let rebuilt: Vec<u8> = r.concat();
    assert_eq!(rebuilt, data);
}

#[test]
fn chunking_single_byte() {
    let r = chunk_bytes(&[9u8], DEFAULT_CHUNK_SIZE);
    assert_eq!(r, vec![vec![9u8]]);
}

#[test]
fn chunking_respects_custom_chunk_size() {
    let data = b"abcdefgh".to_vec();
    let r = chunk_bytes(&data, 3);
    assert_eq!(r, vec![b"abc".to_vec(), b"def".to_vec(), b"gh".to_vec()]);
}
