use image_bench::logic::{
    calculate_dimensions, collision_safe_destination, encoding_values, human_bytes,
    is_supported_image, normalize_filename_suffix, output_mime_type, png_compression_for_quality,
    quality_percentage, should_skip_non_smaller_jpeg_export, DestinationSearch, QualityPreset,
};

/// Runs a destination search against a folder that already holds `existing`.
fn first_free_name(mut search: DestinationSearch, existing: &[&str]) -> String {
    loop {
        let name = search.candidate_file_name();
        if !existing.contains(&name.as_str()) {
            return name;
        }
        search.advance().unwrap();
    }
}

#[test]
fn landscape_resize_preserves_ratio() {
    assert_eq!(calculate_dimensions(6000, 4000, 1920).unwrap(), (1920, 1280));
}

#[test]
fn portrait_resize_preserves_ratio() {
    assert_eq!(calculate_dimensions(3000, 4500, 800).unwrap(), (800, 1200));
}

#[test]
fn never_upscales() {
    assert_eq!(calculate_dimensions(640, 480, 1920).unwrap(), (640, 480));
}

#[test]
fn jpeg_balanced_quality() {
    assert_eq!(encoding_values(QualityPreset::Balanced, ".jpg", None).unwrap(), (Some(85), None));
}

#[test]
fn png_compact_compression() {
    assert_eq!(encoding_values(QualityPreset::Compact, ".png", None).unwrap(), (None, Some(90)));
}

#[test]
fn custom_jpeg_quality() {
    assert_eq!(encoding_values(QualityPreset::Custom, ".jpg", Some(81)).unwrap(), (Some(81), None));
}

#[test]
fn custom_png_preserves_preset_anchor_mapping() {
    assert_eq!(encoding_values(QualityPreset::Custom, ".png", Some(85)).unwrap(), (None, Some(65)));
}

#[test]
fn png_custom_quality_is_lossless_compression_mapping() {
    assert_eq!(png_compression_for_quality(92).unwrap(), 40);
    assert_eq!(png_compression_for_quality(75).unwrap(), 90);
}

#[test]
fn collision_safe_destination_increments() {
    let search = collision_safe_destination("/source/photo.jpg", "", None).unwrap();
    assert_eq!(first_free_name(search, &["photo.jpg"]), "photo-2.jpg");
}

#[test]
fn quality_percentage_presets_and_custom() {
    assert_eq!(quality_percentage(QualityPreset::High, None).unwrap(), 92);
    assert_eq!(quality_percentage(QualityPreset::Balanced, None).unwrap(), 85);
    assert_eq!(quality_percentage(QualityPreset::Compact, None).unwrap(), 75);
    assert_eq!(quality_percentage(QualityPreset::Custom, Some(68)).unwrap(), 68);
}

#[test]
fn filename_suffix_and_quality_suffix() {
    let search = collision_safe_destination("/source/photo.png", "-optimized", Some(85)).unwrap();
    assert_eq!(first_free_name(search, &[]), "photo-optimized-85.png");
}

#[test]
fn suffix_collision_keeps_suffixes_before_counter() {
    let search = collision_safe_destination("/source/photo.png", "-optimized", Some(85)).unwrap();
    assert_eq!(first_free_name(search, &["photo-optimized-85.png"]), "photo-optimized-85-2.png");
}

#[test]
fn filename_suffix_rejects_path_separators() {
    assert!(normalize_filename_suffix("../escape").is_err());
}

#[test]
fn jpeg_export_never_allows_output_larger_than_source() {
    assert!(should_skip_non_smaller_jpeg_export(".jpg", 62_243, 89_720, 612, 384, 612, 384));
    assert!(should_skip_non_smaller_jpeg_export(".jpg", 62_243, 89_720, 612, 384, 320, 201));
    assert!(should_skip_non_smaller_jpeg_export("jpeg", 62_243, 62_243, 612, 384, 612, 384));
    assert!(!should_skip_non_smaller_jpeg_export(".jpg", 62_243, 62_243, 612, 384, 320, 201));
    assert!(!should_skip_non_smaller_jpeg_export(".jpg", 62_243, 60_000, 612, 384, 320, 201));
    assert!(!should_skip_non_smaller_jpeg_export(".png", 62_243, 89_720, 612, 384, 612, 384));
}

#[test]
fn human_bytes_formats_kibibyte() {
    assert_eq!(human_bytes(1024), "1.0 KB");
}

// ---------------------------------------------------------------------------
// Further cases
// ---------------------------------------------------------------------------

#[test]
fn dimension_errors() {
    assert_eq!(calculate_dimensions(0, 10, 10).unwrap_err(), "Image dimensions must be positive");
    assert_eq!(calculate_dimensions(10, 0, 10).unwrap_err(), "Image dimensions must be positive");
    assert_eq!(calculate_dimensions(10, 10, 0).unwrap_err(), "Requested width must be positive");
}

#[test]
fn dimension_rounding_is_half_to_even() {
    // 3 * 5 / 6 = 2.5 -> 2 (even), 5 * 5 / 6 = 4.1667 -> 4, 3 * 7 / 6 = 3.5 -> 4 (even)
    assert_eq!(calculate_dimensions(6, 3, 5).unwrap(), (5, 2));
    assert_eq!(calculate_dimensions(6, 5, 5).unwrap(), (5, 4));
    assert_eq!(calculate_dimensions(14, 7, 7).unwrap(), (7, 4));
    // 1 * 1 / 4 = 0.25 -> 0, raised to one pixel
    assert_eq!(calculate_dimensions(4, 1, 1).unwrap(), (1, 1));
    assert_eq!(calculate_dimensions(u32::MAX, u32::MAX, u32::MAX - 1).unwrap(), (u32::MAX - 1, u32::MAX - 1));
}

#[test]
fn resized_height_stays_within_half_a_pixel() {
    for (w, h, r) in [(6000u32, 4000u32, 1280u32), (4032, 3024, 800), (1000, 333, 999), (7, 3, 2)] {
        let (tw, th) = calculate_dimensions(w, h, r).unwrap();
        assert!(tw <= w && tw <= r && th <= h);
        let exact = h as u64 * tw as u64;
        let got = th as u64 * w as u64;
        assert!(2 * exact.abs_diff(got) <= w as u64);
    }
}

#[test]
fn png_compression_mapping_values() {
    assert_eq!(png_compression_for_quality(100).unwrap(), 0);
    assert_eq!(png_compression_for_quality(85).unwrap(), 65);
    assert_eq!(png_compression_for_quality(1).unwrap(), 100);
    // between anchors: 96 -> (100-96)*40/8 = 20
    assert_eq!(png_compression_for_quality(96).unwrap(), 20);
    // 88 -> 40 + (92-88)*25/7 = 40 + 14.29 -> 54
    assert_eq!(png_compression_for_quality(88).unwrap(), 54);
    // 50 -> 90 + (75-50)*10/74 = 90 + 3.38 -> 93
    assert_eq!(png_compression_for_quality(50).unwrap(), 93);
    assert_eq!(png_compression_for_quality(0).unwrap_err(), "Quality must be between 1 and 100");
    assert_eq!(png_compression_for_quality(101).unwrap_err(), "Quality must be between 1 and 100");
}

#[test]
fn png_compression_never_rises_with_quality() {
    let mut previous = png_compression_for_quality(1).unwrap();
    for q in 2..=100u8 {
        let c = png_compression_for_quality(q).unwrap();
        assert!(c <= previous);
        assert!(c <= 100);
        previous = c;
    }
}

#[test]
fn custom_quality_equal_to_presets_gives_preset_settings() {
    for (preset, q) in [(QualityPreset::High, 92u8), (QualityPreset::Balanced, 85), (QualityPreset::Compact, 75)] {
        for suffix in ["png", ".jpg", "JPEG"] {
            assert_eq!(
                encoding_values(QualityPreset::Custom, suffix, Some(q)).unwrap(),
                encoding_values(preset, suffix, None).unwrap()
            );
        }
    }
}

#[test]
fn encoding_value_errors() {
    assert_eq!(
        encoding_values(QualityPreset::Custom, ".jpg", None).unwrap_err(),
        "Custom quality is required and must be between 1 and 100"
    );
    assert_eq!(
        encoding_values(QualityPreset::Custom, ".jpg", Some(0)).unwrap_err(),
        "Custom quality is required and must be between 1 and 100"
    );
    assert_eq!(encoding_values(QualityPreset::High, ".gif", None).unwrap_err(), "Unsupported output format: .gif");
    assert_eq!(encoding_values(QualityPreset::High, "..PNG", None).unwrap(), (None, Some(40)));
    assert_eq!(encoding_values(QualityPreset::High, ".JpEg", None).unwrap(), (Some(92), None));
    assert_eq!(quality_percentage(QualityPreset::Custom, Some(101)).unwrap_err(), "Custom quality is required and must be between 1 and 100");
}

#[test]
fn mime_types() {
    assert_eq!(output_mime_type(".JPG").unwrap(), "image/jpeg");
    assert_eq!(output_mime_type("jpeg").unwrap(), "image/jpeg");
    assert_eq!(output_mime_type("png").unwrap(), "image/png");
    assert_eq!(output_mime_type("webp").unwrap_err(), "Unsupported output format: webp");
}

#[test]
fn filename_suffix_normalization() {
    assert_eq!(normalize_filename_suffix("  -small\t").unwrap(), "-small");
    assert_eq!(normalize_filename_suffix("   ").unwrap(), "");
    assert_eq!(normalize_filename_suffix("\u{3000}-x\u{a0}").unwrap(), "-x");
    assert_eq!(
        normalize_filename_suffix("a\\b").unwrap_err(),
        "Filename suffix cannot contain path separators"
    );
    assert!(normalize_filename_suffix("a\0b").is_err());
}

#[test]
fn destination_errors_and_counter() {
    assert_eq!(
        collision_safe_destination("/source/photo", "", None).err().unwrap(),
        "Source file has no extension"
    );
    assert_eq!(
        collision_safe_destination("/", "", None).err().unwrap(),
        "Source filename is not valid UTF-8"
    );
    assert_eq!(
        collision_safe_destination("/source/photo.jpg", "/x", None).err().unwrap(),
        "Filename suffix cannot contain path separators"
    );
    assert_eq!(
        collision_safe_destination("/source/photo.jpg", "", Some(0)).err().unwrap(),
        "Quality suffix must be between 1 and 100"
    );
    let search = collision_safe_destination("/a/b/archive.tar.gz", " -x ", Some(100)).unwrap();
    assert_eq!(
        first_free_name(search, &["archive.tar-x-100.gz", "archive.tar-x-100-2.gz", "archive.tar-x-100-3.gz"]),
        "archive.tar-x-100-4.gz"
    );
}

#[test]
fn destination_names_never_repeat() {
    let mut search = collision_safe_destination("/p/img.PNG", "", None).unwrap();
    let mut seen = Vec::new();
    for _ in 0..50 {
        let name = search.candidate_file_name();
        assert!(!seen.contains(&name));
        seen.push(name);
        search.advance().unwrap();
    }
    assert_eq!(seen[0], "img.PNG");
    assert_eq!(seen[1], "img-2.PNG");
    assert_eq!(seen[10], "img-11.PNG");
}

#[test]
fn supported_image_extensions() {
    assert!(is_supported_image("/x/a.jpg", true));
    assert!(is_supported_image("/x/a.JPEG", true));
    assert!(is_supported_image("b.Png", true));
    assert!(!is_supported_image("b.png", false));
    assert!(!is_supported_image("b.gif", true));
    assert!(!is_supported_image("/x/.png", true));
    assert!(!is_supported_image("/x/png", true));
}

#[test]
fn human_bytes_units() {
    assert_eq!(human_bytes(0), "0 B");
    assert_eq!(human_bytes(1023), "1023 B");
    assert_eq!(human_bytes(1536), "1.5 KB");
    assert_eq!(human_bytes(1280), "1.2 KB");
    assert_eq!(human_bytes(1048575), "1024.0 KB");
    assert_eq!(human_bytes(1048576), "1.0 MB");
    assert_eq!(human_bytes(5 * 1073741824), "5.0 GB");
    assert_eq!(human_bytes(u64::MAX), "17179869184.0 GB");
}

#[test]
fn human_bytes_matches_float_formatting() {
    let mut values: Vec<u64> = vec![
        1024, 1075, 1126, 1177, 1228, 1279, 1280, 1331, 2047, 2048, 10_240, 99_999, 1_000_000,
        1_048_575, 1_048_576, 1_572_864, 123_456_789, 1_073_741_823, 1_073_741_824,
        (1 << 53) - 1, 1 << 53, (1 << 53) + 1, (1 << 54) + 3, u64::MAX - 1,
    ];
    let mut x: u64 = 0x9E37_79B9_7F4A_7C15;
    for _ in 0..2000 {
        x ^= x << 13;
        x ^= x >> 7;
        x ^= x << 17;
        values.push(x >> (x % 60));
    }
    for v in values {
        let mut size = v as f64;
        let mut expected = String::new();
        for unit in ["B", "KB", "MB", "GB"] {
            if size < 1024.0 || unit == "GB" {
                expected = if unit == "B" {
                    format!("{} B", size as u64)
                } else {
                    format!("{size:.1} {unit}")
                };
                break;
            }
            size /= 1024.0;
        }
        assert_eq!(human_bytes(v), expected, "value {v}");
    }
}
