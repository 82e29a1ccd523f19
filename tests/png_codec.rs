use little_exif::png::clear_metadata;
use little_exif::png::parse_png;
use little_exif::png::read_metadata;
use little_exif::png::write_metadata;
use little_exif::png::PngError;

fn crc32(data: &[u8]) -> u32 {
    crc::Crc::<u32>::new(&crc::CRC_32_ISO_HDLC).checksum(data)
}

fn push_chunk(buf: &mut Vec<u8>, name: &[u8; 4], payload: &[u8]) {
    buf.extend_from_slice(&(payload.len() as u32).to_be_bytes());
    let mut typed = name.to_vec();
    typed.extend_from_slice(payload);
    buf.extend_from_slice(&typed);
    buf.extend_from_slice(&crc32(&typed).to_be_bytes());
}

const SIGNATURE: [u8; 8] = [0x89, 0x50, 0x4e, 0x47, 0x0d, 0x0a, 0x1a, 0x0a];
const PREFIX: &[u8] = b"Raw profile type exif\x00\x00";

fn ihdr() -> Vec<u8> {
    vec![0, 0, 0, 1, 0, 0, 0, 1, 8, 2, 0, 0, 0]
}

/// A minimal image: IHDR, IDAT, IEND.
fn small_png() -> Vec<u8> {
    let mut b = SIGNATURE.to_vec();
    push_chunk(&mut b, b"IHDR", &ihdr());
    push_chunk(&mut b, b"IDAT", &[0x78, 0x9c, 0x63, 0x60, 0x00, 0x00, 0x00, 0x02, 0x00, 0x01]);
    push_chunk(&mut b, b"IEND", &[]);
    b
}

fn count_metadata_chunks(b: &Vec<u8>) -> usize {
    let chunks = parse_png(b).unwrap();
    let mut pos = 8usize;
    let mut n = 0;
    for c in &chunks {
        let len = c.length() as usize;
        if c.name() == &b"zTXt".to_vec() && b[pos + 8..pos + 8 + len].starts_with(PREFIX) {
            n += 1;
        }
        pos += len + 12;
    }
    n
}

#[test]
fn parsing_test() {
    let chunks = parse_png(&small_png()).unwrap();
    assert_eq!(chunks.len(), 3);
}

#[test]
fn parse_reports_names_and_lengths() {
    let chunks = parse_png(&small_png()).unwrap();
    assert_eq!(chunks[0].name(), &b"IHDR".to_vec());
    assert_eq!(chunks[0].length(), 13);
    assert_eq!(chunks[1].length(), 10);
    assert_eq!(chunks[2].name(), &b"IEND".to_vec());
    assert_eq!(chunks[2].length(), 0);
}

#[test]
fn every_corrupted_signature_byte_is_rejected() {
    for i in 0..8 {
        let mut b = small_png();
        b[i] ^= 0x01;
        assert!(matches!(parse_png(&b), Err(PngError::InvalidSignature)));
    }
}

#[test]
fn short_buffer_is_rejected_by_signature() {
    assert!(matches!(parse_png(&vec![0x89, 0x50]), Err(PngError::InvalidSignature)));
}

#[test]
fn flipped_payload_bit_fails_checksum() {
    let clean = small_png();
    // IHDR payload starts at 8 + 8.
    for bit in 0..8 {
        let mut b = clean.clone();
        b[16 + 5] ^= 1 << bit;
        assert!(matches!(parse_png(&b), Err(PngError::ChecksumMismatch)));
    }
}

#[test]
fn truncated_stream_is_rejected() {
    let mut b = small_png();
    b.truncate(b.len() - 3);
    assert!(matches!(parse_png(&b), Err(PngError::Truncated)));
    assert!(matches!(parse_png(&SIGNATURE.to_vec()), Err(PngError::Truncated)));
}

#[test]
fn non_letter_chunk_name_is_rejected() {
    let mut b = SIGNATURE.to_vec();
    push_chunk(&mut b, b"IH1R", &ihdr());
    push_chunk(&mut b, b"IEND", &[]);
    assert!(matches!(parse_png(&b), Err(PngError::InvalidChunkName)));
}

#[test]
fn bytes_after_iend_are_not_inspected() {
    let mut b = small_png();
    b.extend_from_slice(&[0xde, 0xad, 0xbe, 0xef, 0x00]);
    let chunks = parse_png(&b).unwrap();
    assert_eq!(chunks.len(), 3);
    assert_eq!(chunks.last().unwrap().name(), &b"IEND".to_vec());
}

#[test]
fn read_without_metadata_is_no_metadata() {
    assert!(matches!(read_metadata(&small_png()), Err(PngError::NoMetadata)));
}

#[test]
fn read_of_corrupt_buffer_is_parse_error() {
    let mut b = small_png();
    b[0] = 0;
    assert!(matches!(read_metadata(&b), Err(PngError::InvalidSignature)));
}

#[test]
fn write_then_read_round_trips() {
    let mut b = small_png();
    let data = b"exif payload \x00\x01\x02 with bytes".to_vec();
    write_metadata(&mut b, &data).unwrap();
    assert_eq!(read_metadata(&b).unwrap(), data);
    let chunks = parse_png(&b).unwrap();
    assert_eq!(chunks.len(), 4);
    assert_eq!(chunks[1].name(), &b"zTXt".to_vec());
}

#[test]
fn written_chunk_is_compressed_with_declared_length() {
    let mut b = small_png();
    let data = vec![b'A'; 1000];
    write_metadata(&mut b, &data).unwrap();
    let chunks = parse_png(&b).unwrap();
    let len = chunks[1].length() as usize;
    // Right after IHDR: 8 signature + 25 IHDR bytes.
    let declared = u32::from_be_bytes([b[33], b[34], b[35], b[36]]) as usize;
    assert_eq!(declared, len);
    assert!(len < 1000);
    assert_eq!(&b[41..41 + PREFIX.len()], PREFIX);
}

#[test]
fn second_write_replaces_first() {
    let mut b = small_png();
    write_metadata(&mut b, &b"first".to_vec()).unwrap();
    write_metadata(&mut b, &b"second one".to_vec()).unwrap();
    assert_eq!(count_metadata_chunks(&b), 1);
    assert_eq!(read_metadata(&b).unwrap(), b"second one".to_vec());
}

#[test]
fn clear_removes_metadata_and_keeps_rest() {
    let pristine = small_png();
    let mut b = pristine.clone();
    write_metadata(&mut b, &b"data".to_vec()).unwrap();
    clear_metadata(&mut b).unwrap();
    assert_eq!(b, pristine);
}

#[test]
fn clear_twice_equals_clear_once() {
    let mut b = small_png();
    write_metadata(&mut b, &b"data".to_vec()).unwrap();
    clear_metadata(&mut b).unwrap();
    let once = b.clone();
    clear_metadata(&mut b).unwrap();
    assert_eq!(b, once);
}

#[test]
fn clear_keeps_unrelated_ztxt_chunks() {
    let mut b = SIGNATURE.to_vec();
    push_chunk(&mut b, b"IHDR", &ihdr());
    push_chunk(&mut b, b"zTXt", b"Comment\x00\x00\x78\x9c\x03\x00\x00\x00\x00\x01");
    push_chunk(&mut b, b"zTXt", b"Raw");
    let mut exif = PREFIX.to_vec();
    exif.extend_from_slice(&[1, 2, 3]);
    push_chunk(&mut b, b"zTXt", &exif);
    push_chunk(&mut b, b"zTXt", &exif);
    push_chunk(&mut b, b"IEND", &[]);
    clear_metadata(&mut b).unwrap();
    let chunks = parse_png(&b).unwrap();
    assert_eq!(chunks.len(), 4);
    assert_eq!(count_metadata_chunks(&b), 0);
}

#[test]
fn clear_of_corrupt_buffer_leaves_it() {
    let mut b = small_png();
    let last = b.len() - 1;
    b[last] ^= 0xff;
    let before = b.clone();
    assert!(matches!(clear_metadata(&mut b), Err(PngError::ChecksumMismatch)));
    assert_eq!(b, before);
}

#[test]
fn read_of_bad_deflate_stream_fails_to_inflate() {
    let mut b = SIGNATURE.to_vec();
    push_chunk(&mut b, b"IHDR", &ihdr());
    let mut exif = PREFIX.to_vec();
    exif.extend_from_slice(&[0xff, 0xff, 0xff]);
    push_chunk(&mut b, b"zTXt", &exif);
    push_chunk(&mut b, b"IEND", &[]);
    assert!(matches!(read_metadata(&b), Err(PngError::InflateFailed)));
}

#[test]
fn write_to_corrupt_buffer_changes_nothing() {
    let mut b = small_png();
    b[3] = 0;
    let before = b.clone();
    assert!(matches!(write_metadata(&mut b, &b"x".to_vec()), Err(PngError::InvalidSignature)));
    assert_eq!(b, before);
}
