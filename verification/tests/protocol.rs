//! End-to-end protocol behaviour: encoding, chunking, reassembly, and the
//! two transfer scenarios.

use qr_transfer::codec::{encode, reassemble, split_data, EncodeError, ReassembleError};
use qr_transfer::tracker::Tracker;
use qr_transfer::CHUNK_SIZE;

fn sample_bytes(n: usize) -> Vec<u8> {
    (0..n).map(|i| ((i * 37 + 11) % 256) as u8).collect()
}

#[test]
fn round_trip_small() {
    let data: Vec<u8> = b"hello world".to_vec();
    let chunks = encode(&data).unwrap();
    let restored = reassemble(&chunks).unwrap();
    assert_eq!(restored, data);
}

#[test]
fn encode_known_base64() {
    let data: Vec<u8> = b"hello".to_vec();
    let chunks = encode(&data).unwrap();
    assert_eq!(chunks.len(), 1);
    assert_eq!(chunks[0], "aGVsbG8=");
}

#[test]
fn encode_empty_input() {
    let data: Vec<u8> = Vec::new();
    assert_eq!(encode(&data), Err(EncodeError::EmptyInput));
}

#[test]
fn split_uneven() {
    let r = split_data("abcdefg", 3);
    assert_eq!(r, vec!["abc".to_string(), "def".to_string(), "g".to_string()]);
}

#[test]
fn split_exact_multiple() {
    let r = split_data("abcdef", 3);
    assert_eq!(r, vec!["abc".to_string(), "def".to_string()]);
}

#[test]
fn split_empty() {
    let r = split_data("", 5);
    assert!(r.is_empty());
}

#[test]
fn split_shorter_than_chunk() {
    let r = split_data("ab", 5);
    assert_eq!(r, vec!["ab".to_string()]);
}

#[test]
fn reassemble_empty_sequence() {
    let chunks: Vec<String> = Vec::new();
    assert_eq!(reassemble(&chunks), Err(ReassembleError::EmptySequence));
}

#[test]
fn reassemble_invalid_base64() {
    let chunks = vec!["!!!".to_string()];
    assert_eq!(reassemble(&chunks), Err(ReassembleError::Base64Decode));
}

#[test]
fn reassemble_trims_surrounding_whitespace() {
    let chunks = vec![" \naGVs".to_string(), "bG8=\t ".to_string()];
    assert_eq!(reassemble(&chunks).unwrap(), b"hello".to_vec());
}

#[test]
fn scenario_transfer_in_order() {
    // A 4500-byte file encodes to 6000 base64 characters: exactly 3 chunks
    // of 2000 characters each.
    let data = sample_bytes(4500);
    let chunks = encode(&data).unwrap();
    assert_eq!(chunks.len(), 3);
    for c in &chunks {
        assert_eq!(c.chars().count(), CHUNK_SIZE);
    }

    // The receiver sees chunk 0, 1, 2 in order, with repeats, then silence.
    let mut t = Tracker::new();
    assert!(t.submit(chunks[0].clone(), 100));
    assert!(!t.submit(chunks[0].clone(), 150));
    assert!(t.submit(chunks[1].clone(), 200));
    assert!(t.submit(chunks[2].clone(), 300));
    assert!(!t.submit(chunks[1].clone(), 350));
    assert_eq!(t.chunk_count(), 3);

    // Not complete during the idle window, complete just past it.
    assert!(!t.is_complete(3300));
    assert!(t.is_complete(3301));

    let received = t.finalize().unwrap();
    let restored = reassemble(&received).unwrap();
    assert_eq!(restored, data);
}

#[test]
fn scenario_out_of_order_capture() {
    // Chunks observed in order [1, 0, 2]: every chunk is a multiple of four
    // base64 characters, so the concatenation still decodes, but the result
    // differs from the original file.  Documented behaviour, not a crash.
    let data = sample_bytes(4500);
    let chunks = encode(&data).unwrap();
    assert_eq!(chunks.len(), 3);

    let shuffled = vec![chunks[1].clone(), chunks[0].clone(), chunks[2].clone()];
    let restored = reassemble(&shuffled).unwrap();
    assert_ne!(restored, data);
    assert_eq!(restored.len(), data.len());
}
