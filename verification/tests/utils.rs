use struct_compression_analyzer::analyzer::clamp_bits;
use struct_compression_analyzer::csv::sanitize_filename;
use struct_compression_analyzer::results::{get_parent_path, PrintFormat};
use struct_compression_analyzer::utils::analyze_utils::{get_zstd_compressed_size, reverse_bits, try_get_zstd_compressed_size};

#[test]
fn reverses_bits() {
    assert_eq!(reverse_bits(4, 0b0001), 0b1000);
    assert_eq!(reverse_bits(8, 0b1100_1010), 0b0101_0011);
    assert_eq!(reverse_bits(3, 0b1111_0110), 0b011);
    assert_eq!(reverse_bits(0, 0xFFFF), 0);
    assert_eq!(reverse_bits(64, 1), 1u64 << 63);
}

#[test]
fn reversing_twice_gives_back_the_bits() {
    for (n, v) in [(4u32, 0b1011u64), (7, 0b101_0011), (64, 0x0123_4567_89AB_CDEF)] {
        assert_eq!(reverse_bits(n, reverse_bits(n, v)), v);
    }
}

#[test]
fn clamps_bits() {
    assert_eq!(clamp_bits(0), 0);
    assert_eq!(clamp_bits(64), 64);
    assert_eq!(clamp_bits(65), 0);
}

#[test]
fn sanitizes_file_names() {
    assert_eq!(sanitize_filename("colors.r"), "colors_r");
    assert_eq!(sanitize_filename("a b/c"), "a_b_c");
    assert_eq!(sanitize_filename("Größe9"), "Größe9");
    assert_eq!(sanitize_filename(""), "");
}

#[test]
fn finds_parent_paths() {
    assert_eq!(get_parent_path("colors.r"), Some("colors"));
    assert_eq!(get_parent_path("a.b.c"), Some("a.b"));
    assert_eq!(get_parent_path("root"), None);
    assert_eq!(get_parent_path(".x"), Some(""));
}

#[test]
fn print_format_defaults_to_detailed() {
    assert_eq!(PrintFormat::default(), PrintFormat::Detailed);
}

#[test]
fn analyze_utils_zstd_compression_estimate() {
    let data = b"This is a test string that should compress well with zstandard zstandard zstandard zstandard zstandard zstandard";
    let compressed_size = get_zstd_compressed_size(data, 16);
    assert!(compressed_size < data.len() as u64);
}

#[test]
fn zstd_size_is_the_same_through_both_entry_points() {
    let data = vec![7u8; 4096];
    let size = get_zstd_compressed_size(&data, 3);
    assert!(size > 0 && size < 100);
    assert_eq!(try_get_zstd_compressed_size(&data, 3), Some(size));
}
