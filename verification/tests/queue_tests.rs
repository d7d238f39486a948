use image_bench::logic::QualityPreset;
use image_bench::processor::{ProcessOptions, ProcessResult};
use image_bench::queue::{
    clear_queue, preview_invalidated, remove_entry,
    preview_cache_hit, preview_cache_key, preview_finished, preview_is_current,
    preview_requested, set_current_entry_quality, set_current_entry_resize, PreviewJobs,
    action_state, apply_current_settings_to_indices, count_selected_targets, default_entry_settings, entry_target_width,
    options_for_entry, quality_preset_from_index, quality_preset_index, select_import_candidates,
    summarize_batch, zoom_scale_from_index, EntrySettings, ImportCandidate,
};

fn settings(width_preset: u32, quality_preset: QualityPreset) -> EntrySettings {
    EntrySettings { width_preset, custom_width: 1000, quality_preset, custom_quality: None }
}

fn result(original: u64, output: u64, skipped: bool) -> ProcessResult {
    ProcessResult {
        source: "a.jpg".to_string(),
        destination: None,
        original_bytes: original,
        output_bytes: output,
        original_width: 10,
        original_height: 10,
        output_width: 10,
        output_height: 10,
        skipped_not_smaller: skipped,
    }
}

#[test]
fn target_widths_and_presets() {
    assert_eq!(entry_target_width(&settings(0, QualityPreset::High)), 1920);
    assert_eq!(entry_target_width(&settings(1, QualityPreset::High)), 1280);
    assert_eq!(entry_target_width(&settings(2, QualityPreset::High)), 800);
    assert_eq!(entry_target_width(&settings(3, QualityPreset::High)), 1000);
    let d = default_entry_settings();
    assert_eq!((entry_target_width(&d), d.quality_preset, d.custom_quality), (1280, QualityPreset::Balanced, None));
    for p in [QualityPreset::High, QualityPreset::Balanced, QualityPreset::Compact, QualityPreset::Custom] {
        assert_eq!(quality_preset_from_index(quality_preset_index(p)), p);
    }
    assert_eq!(quality_preset_from_index(17), QualityPreset::Custom);
    assert_eq!(zoom_scale_from_index(0), None);
    assert_eq!(zoom_scale_from_index(1), Some(1));
    assert_eq!(zoom_scale_from_index(3), Some(4));
    assert_eq!(zoom_scale_from_index(4), None);
}

#[test]
fn options_take_entry_settings() {
    let base = ProcessOptions {
        target_width: 1920,
        quality_preset: QualityPreset::High,
        custom_quality: None,
        add_filename_suffix: true,
        filename_suffix: "-s".to_string(),
        add_quality_suffix: false,
    };
    let entry = EntrySettings { width_preset: 3, custom_width: 640, quality_preset: QualityPreset::Custom, custom_quality: Some(70) };
    let o = options_for_entry(&base, &entry);
    assert_eq!((o.target_width, o.quality_preset, o.custom_quality), (640, QualityPreset::Custom, Some(70)));
    assert_eq!((o.add_filename_suffix, o.filename_suffix.as_str(), o.add_quality_suffix), (true, "-s", false));
}

#[test]
fn settings_are_copied_to_distinct_other_entries() {
    let mut entries = vec![
        settings(0, QualityPreset::High),
        settings(1, QualityPreset::Balanced),
        settings(2, QualityPreset::Compact),
        settings(3, QualityPreset::Custom),
    ];
    let applied = apply_current_settings_to_indices(&mut entries, Some(2), &[0, 2, 0, 9, 3]);
    assert_eq!(applied, 2);
    assert_eq!(entries[0], settings(2, QualityPreset::Compact));
    assert_eq!(entries[1], settings(1, QualityPreset::Balanced));
    assert_eq!(entries[3], settings(2, QualityPreset::Compact));
    let before = entries.clone();
    assert_eq!(apply_current_settings_to_indices(&mut entries, None, &[0, 1]), 0);
    assert_eq!(apply_current_settings_to_indices(&mut entries, Some(7), &[0, 1]), 0);
    assert_eq!(entries, before);
}

#[test]
fn imports_skip_unsupported_and_duplicates() {
    let existing = vec![b"/a/one.jpg".to_vec()];
    let candidates = vec![
        ImportCandidate { key: b"/a/one.jpg".to_vec(), supported: true },
        ImportCandidate { key: b"/a/two.png".to_vec(), supported: true },
        ImportCandidate { key: b"/a/notes.txt".to_vec(), supported: false },
        ImportCandidate { key: b"/a/two.png".to_vec(), supported: true },
        ImportCandidate { key: b"/a/three.jpeg".to_vec(), supported: true },
    ];
    let (accepted, skipped) = select_import_candidates(&existing, &candidates);
    assert_eq!(accepted, vec![1, 4]);
    assert_eq!(skipped, 3);
}

#[test]
fn batch_summary_totals() {
    let results = vec![result(100, 60, false), result(50, 50, true), result(10, 12, false)];
    let s = summarize_batch(&results);
    assert_eq!((s.result_count, s.skipped_count, s.exported_count), (3, 1, 2));
    assert_eq!((s.bytes_before, s.bytes_after), (160, 122));
    let empty = summarize_batch(&Vec::new());
    assert_eq!((empty.result_count, empty.bytes_before), (0, 0));
}

#[test]
fn available_actions() {
    let idle = action_state(2, true, false, false, false, false, 1);
    assert!(idle.optimize_enabled && idle.controls_enabled && idle.apply_all_enabled && idle.apply_selected_enabled);
    assert!(!idle.apply_quality_enabled);
    let busy = action_state(2, true, true, false, false, false, 1);
    assert!(!busy.optimize_enabled && !busy.controls_enabled && !busy.clear_enabled && busy.queue_enabled);
    let pending = action_state(2, true, false, false, true, true, 1);
    assert!(!pending.optimize_enabled && pending.apply_quality_enabled && !pending.apply_all_enabled);
    let no_output = action_state(1, false, false, false, false, false, 0);
    assert!(!no_output.optimize_enabled && !no_output.apply_all_enabled && no_output.clear_enabled);
    assert_eq!(count_selected_targets(&[true, true, false, true], Some(1)), 2);
    assert_eq!(count_selected_targets(&[true, true], None), 2);
}

#[test]
fn current_entry_settings_change_alone() {
    let mut entries = vec![settings(0, QualityPreset::High), settings(1, QualityPreset::Balanced)];
    assert!(set_current_entry_quality(&mut entries, Some(1), QualityPreset::Custom, Some(70)));
    assert_eq!(entries[1], EntrySettings { width_preset: 1, custom_width: 1000, quality_preset: QualityPreset::Custom, custom_quality: Some(70) });
    assert_eq!(entries[0], settings(0, QualityPreset::High));
    assert!(set_current_entry_resize(&mut entries, Some(0), 3, 640));
    assert_eq!(entries[0], EntrySettings { width_preset: 3, custom_width: 640, quality_preset: QualityPreset::High, custom_quality: None });
    let before = entries.clone();
    assert!(!set_current_entry_quality(&mut entries, None, QualityPreset::Compact, None));
    assert!(!set_current_entry_resize(&mut entries, Some(2), 0, 1));
    assert_eq!(entries, before);
}

#[test]
fn preview_jobs_run_one_at_a_time() {
    let idle = PreviewJobs { generation: 4, running: false, pending: false };
    let (running, started) = preview_requested(idle);
    assert_eq!(started, Some(5));
    assert_eq!(running, PreviewJobs { generation: 5, running: true, pending: false });
    let (queued, started) = preview_requested(running);
    assert_eq!(started, None);
    assert_eq!(queued, PreviewJobs { generation: 6, running: true, pending: true });
    assert!(!preview_is_current(queued, 5));
    assert!(preview_is_current(queued, 6));
    let (done, rerender) = preview_finished(queued);
    assert!(rerender);
    assert_eq!(done, PreviewJobs { generation: 6, running: false, pending: false });
    let (_, rerender) = preview_finished(running);
    assert!(!rerender);
    let (wrapped, started) = preview_requested(PreviewJobs { generation: u64::MAX, running: false, pending: false });
    assert_eq!((wrapped.generation, started), (0, Some(0)));
}

#[test]
fn preview_cache_ignores_filename_options() {
    let base = ProcessOptions {
        target_width: 1280,
        quality_preset: QualityPreset::Balanced,
        custom_quality: None,
        add_filename_suffix: true,
        filename_suffix: "-a".to_string(),
        add_quality_suffix: false,
    };
    let mut renamed = base.clone();
    renamed.filename_suffix = "-b".to_string();
    renamed.add_quality_suffix = true;
    let stored = preview_cache_key("/img/a.jpg", &base);
    assert!(preview_cache_hit(&stored, &preview_cache_key("/img/a.jpg", &renamed)));
    let mut wider = base.clone();
    wider.target_width = 1920;
    assert!(!preview_cache_hit(&stored, &preview_cache_key("/img/a.jpg", &wider)));
    assert!(!preview_cache_hit(&stored, &preview_cache_key("/img/b.jpg", &base)));
    let mut custom = base.clone();
    custom.custom_quality = Some(85);
    assert!(!preview_cache_hit(&stored, &preview_cache_key("/img/a.jpg", &custom)));
}

#[test]
fn removing_and_clearing_entries() {
    let jobs = PreviewJobs { generation: 7, running: true, pending: false };
    let keys = vec![b"/a.jpg".to_vec(), b"/b.png".to_vec(), b"/a.jpg".to_vec(), b"/c.jpg".to_vec()];
    let change = remove_entry(&keys, &b"/a.jpg".to_vec(), jobs);
    assert_eq!(change.kept, vec![1, 3]);
    assert_eq!(change.current_index, Some(0));
    assert_eq!(change.jobs, PreviewJobs { generation: 8, running: true, pending: false });
    let last = remove_entry(&vec![b"/a.jpg".to_vec()], &b"/a.jpg".to_vec(), jobs);
    assert!(last.kept.is_empty());
    assert_eq!(last.current_index, None);
    let untouched = remove_entry(&keys, &b"/z.jpg".to_vec(), jobs);
    assert_eq!(untouched.kept, vec![0, 1, 2, 3]);
    let cleared = clear_queue(PreviewJobs { generation: u64::MAX, running: false, pending: true });
    assert!(cleared.kept.is_empty() && cleared.current_index.is_none());
    assert_eq!(cleared.jobs, PreviewJobs { generation: 0, running: false, pending: true });
    assert_eq!(preview_invalidated(jobs).generation, 8);
}
