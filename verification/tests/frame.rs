//! Luminance conversion of captured frames.

use qr_transfer::frame::to_grayscale;

#[test]
fn grayscale_extremes() {
    let rgba: Vec<u8> = vec![255, 255, 255, 255, 0, 0, 0, 255];
    assert_eq!(to_grayscale(&rgba, 2, 1), vec![255, 0]);
}

#[test]
fn grayscale_weights() {
    // (299 * 100 + 587 * 150 + 114 * 200) / 1000 == 140, alpha ignored.
    let rgba: Vec<u8> = vec![100, 150, 200, 0];
    assert_eq!(to_grayscale(&rgba, 1, 1), vec![140]);
    // Pure channels weigh differently.
    let red: Vec<u8> = vec![255, 0, 0, 255];
    let green: Vec<u8> = vec![0, 255, 0, 255];
    let blue: Vec<u8> = vec![0, 0, 255, 255];
    assert_eq!(to_grayscale(&red, 1, 1), vec![76]);
    assert_eq!(to_grayscale(&green, 1, 1), vec![149]);
    assert_eq!(to_grayscale(&blue, 1, 1), vec![29]);
}

#[test]
fn grayscale_empty_frame() {
    let rgba: Vec<u8> = Vec::new();
    assert!(to_grayscale(&rgba, 0, 0).is_empty());
}
