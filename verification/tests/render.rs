//! QR rendering of chunk payloads.

use qr_transfer::render::{render_chunks, RenderError};

#[test]
fn renders_one_svg_per_chunk() {
    let chunks = vec!["aGVsbG8=".to_string(), "d29ybGQ=".to_string()];
    let svgs = render_chunks(&chunks).unwrap();
    assert_eq!(svgs.len(), 2);
    for (svg, chunk) in svgs.iter().zip(chunks.iter()) {
        assert!(svg.contains("<svg"));
        assert_ne!(svg, chunk);
    }
}

#[test]
fn renders_nothing_for_no_chunks() {
    let chunks: Vec<String> = Vec::new();
    let svgs = render_chunks(&chunks).unwrap();
    assert!(svgs.is_empty());
}

#[test]
fn oversized_payload_is_unencodable() {
    // The largest QR symbol carries 2953 bytes; a longer payload must err.
    let chunks = vec!["A".repeat(4000)];
    assert_eq!(render_chunks(&chunks), Err(RenderError::Unencodable));
}

#[test]
fn distinct_payloads_render_distinct_images() {
    let chunks = vec!["AAAA".to_string(), "BBBB".to_string()];
    let svgs = render_chunks(&chunks).unwrap();
    assert_ne!(svgs[0], svgs[1]);
}
