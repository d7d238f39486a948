use image_bench::config::{app_id, locale_dir, BASE_APP_ID};
use image_bench::i18n::replace_args;
use image_bench::image::{
    align_to, from_rgba8, pack_rows, should_use_gpu, to_rgba8, PixelFormat, RawImage,
};
use image_bench::logic::QualityPreset;
use image_bench::processor::{
    jpeg_outcome, plan_encoding, plan_export, resize_backend_for, resize_bilinear, settle_render,
    skipped_result, EncodeOutcome,
    ExportPlan, ImageProcessor, JpegQualitySearch, ProcessOptions, RenderDecision, RenderSummary,
    ResizeBackend,
};

fn options(preset: QualityPreset, custom: Option<u8>) -> ProcessOptions {
    ProcessOptions {
        target_width: 1280,
        quality_preset: preset,
        custom_quality: custom,
        add_filename_suffix: true,
        filename_suffix: "-optimized".to_string(),
        add_quality_suffix: true,
    }
}

/// Drives a quality search with an encoder whose output size per quality is
/// given by `size`, counting the encodings.
fn run_search(max: u8, limit: u64, size: impl Fn(u8) -> usize) -> (Option<(Vec<u8>, u8)>, usize) {
    let mut search = JpegQualitySearch::new(max, limit);
    let mut encodings = 0;
    while let Some(q) = search.next_quality() {
        encodings += 1;
        search.record(vec![q; size(q)]);
    }
    (search.finish(), encodings)
}

#[test]
fn config_defaults_and_overrides() {
    assert_eq!(app_id(None), "io.github.christiaanbruinsma.ImageBench");
    assert_eq!(app_id(Some("x.Devel")), "x.Devel");
    assert_eq!(BASE_APP_ID, "io.github.christiaanbruinsma.ImageBench");
    assert_eq!(locale_dir(None), "/usr/share/locale");
    assert_eq!(locale_dir(Some("/app/share/locale")), "/app/share/locale");
}

#[test]
fn placeholders_are_filled_in_order() {
    let text = replace_args(
        "{width} × {height}  •  {size}".to_string(),
        &[("width", "800".to_string()), ("height", "600".to_string()), ("size", "1.0 KB".to_string())],
    );
    assert_eq!(text, "800 × 600  •  1.0 KB");
    assert_eq!(replace_args("{a}{a}{b}".to_string(), &[("a", "x".to_string())]), "xx{b}");
    assert_eq!(replace_args("{a}".to_string(), &[("a", "{b}".to_string()), ("b", "y".to_string())]), "y");
    assert_eq!(replace_args("no placeholders".to_string(), &[("a", "x".to_string())]), "no placeholders");
}

#[test]
fn rgb_and_rgba_conversions() {
    let rgb = RawImage { width: 2, height: 1, format: PixelFormat::Rgb8, pixels: vec![1, 2, 3, 4, 5, 6] };
    let rgba = to_rgba8(&rgb);
    assert_eq!(rgba, vec![1, 2, 3, 255, 4, 5, 6, 255]);
    assert_eq!(from_rgba8(&rgba, PixelFormat::Rgb8), rgb.pixels);
    assert_eq!(from_rgba8(&rgba, PixelFormat::Rgba8), rgba);
    let four = RawImage { width: 1, height: 1, format: PixelFormat::Rgba8, pixels: vec![9, 8, 7, 6] };
    assert_eq!(to_rgba8(&four), vec![9, 8, 7, 6]);
    assert_eq!(rgb.channels(), 3);
    assert_eq!(rgb.stride(), 6);
    assert_eq!(four.stride(), 4);
}

#[test]
fn rows_are_packed_without_padding() {
    let source = [1u8, 2, 3, 0, 4, 5, 6, 0, 7, 8, 9];
    assert_eq!(pack_rows(&source, 3, 4, 3), Some(vec![1, 2, 3, 4, 5, 6, 7, 8, 9]));
    assert_eq!(pack_rows(&source, 4, 4, 3), None);
    assert_eq!(pack_rows(&source, 3, 4, 0), Some(vec![]));
}

#[test]
fn gpu_decisions() {
    let big = RawImage { width: 4000, height: 3000, format: PixelFormat::Rgba8, pixels: Vec::new() };
    let small = RawImage { width: 3000, height: 3000, format: PixelFormat::Rgba8, pixels: Vec::new() };
    assert!(should_use_gpu(&big, 1920, 1440, Some(8192)));
    assert!(!should_use_gpu(&big, 1920, 1440, None));
    assert!(!should_use_gpu(&big, 1920, 1440, Some(2048)));
    assert!(!should_use_gpu(&small, 1920, 1920, Some(8192)));
    assert_eq!(align_to(1, 256), 256);
    assert_eq!(align_to(256, 256), 256);
    assert_eq!(align_to(257, 256), 512);
    assert_eq!(align_to(0, 256), 0);
    assert_eq!(ImageProcessor::with_gpu_availability(true).resize_backend(), ResizeBackend::Gpu);
    assert_eq!(ImageProcessor::with_gpu_availability(false).resize_backend(), ResizeBackend::Cpu);
}

#[test]
fn cpu_resize_produces_target_size() {
    let source = RawImage { width: 4, height: 2, format: PixelFormat::Rgb8, pixels: vec![10; 24] };
    let resized = resize_bilinear(&source, 2, 1).unwrap();
    assert_eq!((resized.width, resized.height, resized.format), (2, 1, PixelFormat::Rgb8));
    assert_eq!(resized.pixels.len(), 6);
    assert!(resized.pixels.iter().all(|&p| p == 10));
    let gradient = RawImage { width: 3, height: 2, format: PixelFormat::Rgba8, pixels: (0..24).map(|v| v * 10).collect() };
    let wide = resize_bilinear(&gradient, 2, 1).unwrap();
    let tall = resize_bilinear(&gradient, 1, 2).unwrap();
    assert_eq!((wide.width, wide.height, tall.width, tall.height), (2, 1, 1, 2));
    assert_eq!(wide.pixels, resize_bilinear(&gradient, 2, 1).unwrap().pixels);
    assert_ne!(wide.pixels, tall.pixels);
    let truncated = RawImage { width: 4, height: 2, format: PixelFormat::Rgba8, pixels: vec![0; 31] };
    assert_eq!(
        resize_bilinear(&truncated, 2, 1).err().unwrap(),
        "Invalid source image buffer: Size of buffer is smaller than required"
    );
}

#[test]
fn search_keeps_requested_quality_when_it_fits() {
    let (best, encodings) = run_search(85, 1000, |q| q as usize);
    assert_eq!(best.unwrap(), (vec![85u8; 85], 85));
    assert_eq!(encodings, 1);
}

#[test]
fn search_finds_highest_fitting_quality() {
    // size grows with quality; qualities up to 77 fit a 770-byte source
    let (best, encodings) = run_search(85, 770, |q| q as usize * 10);
    let (data, quality) = best.unwrap();
    assert_eq!(quality, 77);
    assert!(data.len() <= 770);
    assert!(encodings <= 1 + 7);
    for max in [1u8, 2, 3, 50, 100, 255] {
        for limit in [0u64, 5, 17, 99, 255, 1000] {
            let (best, _) = run_search(max, limit, |q| q as usize);
            let expected = if (max as u64) <= limit { Some(max) } else {
                (1..max).rev().find(|&q| (q as u64) <= limit)
            };
            assert_eq!(best.clone().map(|b| b.1), expected, "max {max} limit {limit}");
            if let Some((data, q)) = best {
                assert_eq!(data, vec![q; q as usize]);
            }
        }
    }
}

#[test]
fn search_result_never_exceeds_limit_even_for_erratic_encoders() {
    for seed in 0..50usize {
        let size = |q: u8| (q as usize * 37 + seed * 11) % 900;
        let (best, encodings) = run_search(92, 500, size);
        assert!(encodings <= 8);
        if let Some((data, q)) = best {
            assert!(data.len() <= 500);
            assert_eq!(data, vec![q; size(q)]);
        }
    }
    for max in 1u8..=255 {
        let (_, encodings) = run_search(max, 0, |q| q as usize + 1);
        let ceil_log2 = (u32::BITS - ((max as u32).saturating_sub(1)).leading_zeros()) as usize;
        assert!(encodings <= 1 + ceil_log2, "max {max}");
    }
    let (best, _) = run_search(92, 0, |q| q as usize + 1);
    assert!(best.is_none());
}

#[test]
fn encoding_plans() {
    let plan = plan_encoding("/in/a.JPG", &options(QualityPreset::Balanced, None)).unwrap();
    assert_eq!((plan.source_suffix.as_str(), plan.mime, plan.quality, plan.compression), ("JPG", "image/jpeg", Some(85), None));
    let plan = plan_encoding("/in/a.png", &options(QualityPreset::Custom, Some(92))).unwrap();
    assert_eq!((plan.mime, plan.quality, plan.compression), ("image/png", None, Some(40)));
    assert_eq!(plan_encoding("/in/a", &options(QualityPreset::High, None)).err().unwrap(), "Source file has no extension");
    assert_eq!(plan_encoding("/in/a.gif", &options(QualityPreset::Custom, None)).err().unwrap(), "Unsupported output format: gif");
    assert_eq!(
        plan_encoding("/in/a.jpg", &options(QualityPreset::Custom, None)).err().unwrap(),
        "Custom quality is required and must be between 1 and 100"
    );
}

fn decision_parts(d: &RenderDecision) -> (Option<Vec<u8>>, u32, u32, Option<u8>) {
    (d.encoded.clone(), d.output_width, d.output_height, d.effective_quality)
}

#[test]
fn renders_fall_back_to_source_bytes() {
    let keep = (None, 612, 384, None);
    let d = settle_render("jpg", 100, 612, 384, 320, 201, EncodeOutcome::NoFittingQuality);
    assert_eq!(decision_parts(&d), keep);
    let d = settle_render("jpg", 100, 612, 384, 320, 201, EncodeOutcome::Encoded { data: vec![1; 101], quality: Some(80) });
    assert_eq!(decision_parts(&d), keep);
    let d = settle_render("jpg", 100, 612, 384, 320, 201, EncodeOutcome::Encoded { data: vec![7; 90], quality: Some(80) });
    assert_eq!(decision_parts(&d), (Some(vec![7; 90]), 320, 201, Some(80)));
    let d = settle_render("jpg", 100, 612, 384, 612, 384, EncodeOutcome::Encoded { data: vec![7; 100], quality: Some(80) });
    assert_eq!(decision_parts(&d), keep);
    let d = settle_render("png", 100, 612, 384, 612, 384, EncodeOutcome::Encoded { data: vec![3; 150], quality: None });
    assert_eq!(decision_parts(&d), (Some(vec![3; 150]), 612, 384, None));
}

#[test]
fn finished_search_hands_on_its_output() {
    let mut search = JpegQualitySearch::new(85, 770);
    while let Some(q) = search.next_quality() {
        search.record(vec![q; q as usize * 10]);
    }
    match jpeg_outcome(search) {
        EncodeOutcome::Encoded { data, quality } => {
            assert_eq!(quality, Some(77));
            assert_eq!(data, vec![77u8; 770]);
        }
        EncodeOutcome::NoFittingQuality => panic!("expected an encoded output"),
    }
    let mut search = JpegQualitySearch::new(85, 3);
    while let Some(q) = search.next_quality() {
        search.record(vec![q; 10]);
    }
    assert!(matches!(jpeg_outcome(search), EncodeOutcome::NoFittingQuality));
}

#[test]
fn backend_choice_falls_back_to_cpu() {
    assert_eq!(resize_backend_for(ResizeBackend::Gpu, true, false), ResizeBackend::Gpu);
    assert_eq!(resize_backend_for(ResizeBackend::Gpu, true, true), ResizeBackend::Cpu);
    assert_eq!(resize_backend_for(ResizeBackend::Gpu, false, false), ResizeBackend::Cpu);
    assert_eq!(resize_backend_for(ResizeBackend::Cpu, true, false), ResizeBackend::Cpu);
}

fn summary(suffix: &str, original: u64, encoded: u64, same: bool, quality: Option<u8>) -> RenderSummary {
    RenderSummary {
        source_suffix: suffix.to_string(),
        original_bytes: original,
        encoded_bytes: encoded,
        original_width: 612,
        original_height: 384,
        output_width: if same { 612 } else { 320 },
        output_height: if same { 384 } else { 201 },
        effective_quality: quality,
    }
}

#[test]
fn export_plans() {
    let opts = options(QualityPreset::Balanced, None);
    assert!(matches!(plan_export(&summary("jpg", 100, 100, true, None), &opts), Ok(ExportPlan::Skip)));
    match plan_export(&summary("jpg", 100, 90, false, Some(77)), &opts).unwrap() {
        ExportPlan::Write { filename_suffix, quality_suffix } => {
            assert_eq!(filename_suffix, "-optimized");
            assert_eq!(quality_suffix, Some(77));
        }
        ExportPlan::Skip => panic!("expected a write"),
    }
    match plan_export(&summary("png", 100, 150, true, None), &opts).unwrap() {
        ExportPlan::Write { quality_suffix, .. } => assert_eq!(quality_suffix, Some(85)),
        ExportPlan::Skip => panic!("expected a write"),
    }
    let mut plain = options(QualityPreset::High, None);
    plain.add_filename_suffix = false;
    plain.add_quality_suffix = false;
    match plan_export(&summary("png", 100, 50, false, None), &plain).unwrap() {
        ExportPlan::Write { filename_suffix, quality_suffix } => {
            assert_eq!(filename_suffix, "");
            assert_eq!(quality_suffix, None);
        }
        ExportPlan::Skip => panic!("expected a write"),
    }
    assert_eq!(
        plan_export(&summary("png", 100, 50, false, None), &options(QualityPreset::Custom, None)).err().unwrap(),
        "Custom quality is required and must be between 1 and 100"
    );
    let mut no_quality_suffix = options(QualityPreset::Custom, None);
    no_quality_suffix.add_quality_suffix = false;
    match plan_export(&summary("png", 100, 50, false, None), &no_quality_suffix).unwrap() {
        ExportPlan::Write { quality_suffix, .. } => assert_eq!(quality_suffix, None),
        ExportPlan::Skip => panic!("expected a write"),
    }
    let skipped = skipped_result("/in/a.jpg".to_string(), &summary("jpg", 100, 120, false, None));
    assert!(skipped.skipped_not_smaller && skipped.destination.is_none());
    assert_eq!((skipped.original_bytes, skipped.output_bytes), (100, 100));
}
