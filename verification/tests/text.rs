//! Output file naming and size formatting.

use qr_transfer::text::{format_file_size, generate_output_filename, u64_to_string};

#[test]
fn numerals() {
    assert_eq!(u64_to_string(0), "0");
    assert_eq!(u64_to_string(7), "7");
    assert_eq!(u64_to_string(10), "10");
    assert_eq!(u64_to_string(90210), "90210");
    assert_eq!(u64_to_string(u64::MAX), "18446744073709551615");
}

#[test]
fn output_filename() {
    assert_eq!(generate_output_filename(0), "received_file_0");
    assert_eq!(generate_output_filename(1234567890), "received_file_1234567890");
}

#[test]
fn sizes_in_bytes() {
    assert_eq!(format_file_size(0), "0 bytes");
    assert_eq!(format_file_size(512), "512 bytes");
    assert_eq!(format_file_size(1023), "1023 bytes");
}

#[test]
fn sizes_in_kilobytes() {
    assert_eq!(format_file_size(1024), "1.00 KB");
    assert_eq!(format_file_size(1536), "1.50 KB");
    assert_eq!(format_file_size(10240), "10.00 KB");
    // 1535 / 1024 = 1.4990...: rounds up, not truncated.
    assert_eq!(format_file_size(1535), "1.50 KB");
}

#[test]
fn sizes_round_ties_to_even() {
    // 1152 / 1024 = 1.125 exactly: the even neighbour is 1.12.
    assert_eq!(format_file_size(1152), "1.12 KB");
    // 1408 / 1024 = 1.375 exactly: the even neighbour is 1.38.
    assert_eq!(format_file_size(1408), "1.38 KB");
}

#[test]
fn sizes_round_with_carry() {
    // 1048575 / 1024 = 1023.999...: rounding carries into the whole part.
    assert_eq!(format_file_size(1048575), "1024.00 KB");
}

#[test]
fn sizes_in_megabytes() {
    assert_eq!(format_file_size(1048576), "1.00 MB");
    assert_eq!(format_file_size(1572864), "1.50 MB");
    // 2096000 / 1048576 = 1.9990...: rounds up to 2.00.
    assert_eq!(format_file_size(2096000), "2.00 MB");
}
