//! The batch queue's rules: per-image settings, copying settings between
//! images, accepting imported files, zoom steps and the batch summary.
use vstd::prelude::*;

use crate::logic::QualityPreset;
use crate::processor::{ProcessOptions, ProcessResult};

verus! {

/// The resize and quality settings of one queued image.
#[derive(Debug, Clone, Copy, PartialEq, Eq, Structural)]
pub struct EntrySettings {
    /// 0 = 1920 px, 1 = 1280 px, 2 = 800 px, otherwise custom.
    pub width_preset: u32,
    pub custom_width: u32,
    pub quality_preset: QualityPreset,
    pub custom_quality: Option<u8>,
}

/// The settings a newly imported image starts with: 1280 px, Balanced.
pub fn default_entry_settings() -> (s: EntrySettings)
    ensures
        s == (EntrySettings {
            width_preset: 1,
            custom_width: 1280,
            quality_preset: QualityPreset::Balanced,
            custom_quality: None,
        }),
{
    EntrySettings {
        width_preset: 1,
        custom_width: 1280,
        quality_preset: QualityPreset::Balanced,
        custom_quality: None,
    }
}

pub open spec fn preset_width(width_preset: u32, custom_width: u32) -> u32 {
    if width_preset == 0 {
        1920
    } else if width_preset == 1 {
        1280
    } else if width_preset == 2 {
        800
    } else {
        custom_width
    }
}

/// The target width of an entry: its preset width, or its custom width.
pub fn entry_target_width(entry: &EntrySettings) -> (w: u32)
    ensures
        w == preset_width(entry.width_preset, entry.custom_width),
{
    match entry.width_preset {
        0 => 1920,
        1 => 1280,
        2 => 800,
        _ => entry.custom_width,
    }
}

pub open spec fn preset_index(preset: QualityPreset) -> u32 {
    match preset {
        QualityPreset::High => 0,
        QualityPreset::Balanced => 1,
        QualityPreset::Compact => 2,
        QualityPreset::Custom => 3,
    }
}

pub open spec fn preset_at(index: u32) -> QualityPreset {
    if index == 0 {
        QualityPreset::High
    } else if index == 1 {
        QualityPreset::Balanced
    } else if index == 2 {
        QualityPreset::Compact
    } else {
        QualityPreset::Custom
    }
}

/// The position of a quality preset in the preset list.
pub fn quality_preset_index(preset: QualityPreset) -> (i: u32)
    ensures
        i == preset_index(preset),
{
    match preset {
        QualityPreset::High => 0,
        QualityPreset::Balanced => 1,
        QualityPreset::Compact => 2,
        QualityPreset::Custom => 3,
    }
}

/// The quality preset at a position of the preset list (Custom past the end).
pub fn quality_preset_from_index(index: u32) -> (p: QualityPreset)
    ensures
        p == preset_at(index),
{
    match index {
        0 => QualityPreset::High,
        1 => QualityPreset::Balanced,
        2 => QualityPreset::Compact,
        _ => QualityPreset::Custom,
    }
}

/// Selecting the preset at a preset's own position gives that preset back,
/// and every position names the preset whose position it is (past the end:
/// Custom).
pub proof fn lemma_preset_index_round_trip(preset: QualityPreset, index: u32)
    ensures
        preset_at(preset_index(preset)) == preset,
        index <= 3 ==> preset_index(preset_at(index)) == index,
        preset_index(preset) <= 3,
{
}

/// The options for processing one entry: the shared options with the
/// entry's own width and quality.
pub fn options_for_entry(base: &ProcessOptions, entry: &EntrySettings) -> (o: ProcessOptions)
    ensures
        o.target_width == preset_width(entry.width_preset, entry.custom_width),
        o.quality_preset == entry.quality_preset,
        o.custom_quality == entry.custom_quality,
        o.add_filename_suffix == base.add_filename_suffix,
        o.filename_suffix@ == base.filename_suffix@,
        o.add_quality_suffix == base.add_quality_suffix,
{
    ProcessOptions {
        target_width: entry_target_width(entry),
        quality_preset: entry.quality_preset,
        custom_quality: entry.custom_quality,
        add_filename_suffix: base.add_filename_suffix,
        filename_suffix: base.filename_suffix.clone(),
        add_quality_suffix: base.add_quality_suffix,
    }
}

// ---------------------------------------------------------------------------
// Applying the current settings to other entries
// ---------------------------------------------------------------------------

/// Whether target `targets[i]` is applied to: in range, not the current
/// entry, and not named earlier in the list.
pub open spec fn applies_at(targets: Seq<usize>, i: int, len: nat, current: usize) -> bool {
    let t = targets[i];
    t < len && t != current && !targets.subrange(0, i).contains(t)
}

/// How many of the first `k` targets are applied to.
pub open spec fn applied_count(targets: Seq<usize>, k: int, len: nat, current: usize) -> nat
    decreases k,
{
    if k <= 0 {
        0
    } else {
        applied_count(targets, k - 1, len, current) + if applies_at(targets, k - 1, len, current) {
            1nat
        } else {
            0nat
        }
    }
}

/// Copies the current entry's settings to each entry named in
/// `target_indices` (other than the current one) and returns how many
/// distinct entries received them. Nothing happens without a valid current
/// entry.
pub fn apply_current_settings_to_indices(
    entries: &mut Vec<EntrySettings>,
    current_index: Option<usize>,
    target_indices: &[usize],
) -> (applied: usize)
    ensures
        final(entries)@.len() == old(entries)@.len(),
        match current_index {
            Some(c) if c < old(entries)@.len() => {
                &&& applied == applied_count(
                    target_indices@,
                    target_indices@.len() as int,
                    old(entries)@.len(),
                    c,
                )
                &&& forall|j: int|
                    0 <= j < old(entries)@.len() ==> #[trigger] final(entries)@[j] == if j != c
                        && target_indices@.contains(j as usize) {
                        old(entries)@[c as int]
                    } else {
                        old(entries)@[j]
                    }
            },
            _ => applied == 0 && final(entries)@ == old(entries)@,
        },
{
    let current = match current_index {
        Some(c) => c,
        None => {
            return 0;
        },
    };
    if current >= entries.len() {
        return 0;
    }
    let settings = entries[current];
    let ghost n = entries@.len();
    let mut applied: usize = 0;
    let mut i: usize = 0;
    while i < target_indices.len()
        invariant
            i <= target_indices@.len(),
            current < n <= usize::MAX,
            entries@.len() == n == old(entries)@.len(),
            settings == old(entries)@[current as int],
            applied == applied_count(target_indices@, i as int, n, current),
            applied <= i,
            forall|j: int|
                0 <= j < n ==> #[trigger] entries@[j] == if j != current
                    && target_indices@.subrange(0, i as int).contains(j as usize) {
                    settings
                } else {
                    old(entries)@[j]
                },
        decreases target_indices.len() - i,
    {
        let index = target_indices[i];
        let mut seen = false;
        let mut k: usize = 0;
        while k < i
            invariant
                k <= i < target_indices@.len(),
                index == target_indices@[i as int],
                seen == target_indices@.subrange(0, k as int).contains(index),
            decreases i - k,
        {
            proof {
                let before = target_indices@.subrange(0, k as int);
                assert(target_indices@.subrange(0, k + 1) =~= before.push(target_indices@[k as int]));
                vstd::seq_lib::lemma_seq_contains_after_push(before, target_indices@[k as int], index);
            }
            if target_indices[k] == index {
                seen = true;
            }
            k = k + 1;
        }
        proof {
            let before = target_indices@.subrange(0, i as int);
            assert(target_indices@.subrange(0, i + 1) =~= before.push(index));
            assert forall|x: usize| #[trigger] target_indices@.subrange(0, i + 1).contains(x) == (x
                == index || before.contains(x)) by {
                vstd::seq_lib::lemma_seq_contains_after_push(before, index, x);
            }
        }
        let ghost prev = entries@;
        if index != current && !seen && index < entries.len() {
            entries.set(index, settings);
            applied = applied + 1;
        }
        proof {
            assert forall|j: int| 0 <= j < n implies #[trigger] entries@[j] == (if j != current
                && target_indices@.subrange(0, i + 1).contains(j as usize) {
                settings
            } else {
                old(entries)@[j]
            }) by {
                assert(target_indices@.subrange(0, i + 1).contains(j as usize) == (j as usize
                    == index || target_indices@.subrange(0, i as int).contains(j as usize)));
                if j != index as int {
                    assert(entries@[j] == prev[j]);
                    assert(j as usize != index);
                }
                assert(prev[j] == (if j != current && target_indices@.subrange(
                    0,
                    i as int,
                ).contains(j as usize) {
                    settings
                } else {
                    old(entries)@[j]
                }));
            }
        }
        i = i + 1;
    }
    assert(target_indices@.subrange(0, target_indices@.len() as int) =~= target_indices@);
    applied
}

// ---------------------------------------------------------------------------
// Import
// ---------------------------------------------------------------------------

/// One path offered for import: the key that identifies its file (the
/// canonical path's bytes) and whether it is a supported image file.
#[derive(Debug, Clone)]
pub struct ImportCandidate {
    pub key: Vec<u8>,
    pub supported: bool,
}

pub open spec fn candidate_keys(candidates: Seq<ImportCandidate>) -> Seq<Seq<u8>> {
    candidates.map_values(|c: ImportCandidate| c.key@)
}

/// Which of the first `k` candidates are accepted: supported, and not the
/// same file as one already queued or accepted before.
pub open spec fn accepted_upto(
    existing: Seq<Seq<u8>>,
    candidates: Seq<ImportCandidate>,
    k: int,
) -> Seq<usize>
    decreases k,
{
    if k <= 0 {
        Seq::empty()
    } else {
        let before = accepted_upto(existing, candidates, k - 1);
        let c = candidates[k - 1];
        let taken = existing + before.map_values(|i: usize| candidates[i as int].key@);
        if c.supported && !taken.contains(c.key@) {
            before.push((k - 1) as usize)
        } else {
            before
        }
    }
}

/// Whether candidate `k` is the first supported offer of a file that is not
/// queued yet: supported, not among the queued keys, and no supported
/// candidate before it has the same key.
pub open spec fn first_new_offer(
    existing: Seq<Seq<u8>>,
    candidates: Seq<ImportCandidate>,
    k: int,
) -> bool {
    &&& candidates[k].supported
    &&& !existing.contains(candidates[k].key@)
    &&& forall|j: int|
        #![trigger candidates[j]]
        0 <= j < k && candidates[j].supported ==> candidates[j].key@ != candidates[k].key@
}

/// Once a supported candidate has been considered, its key is taken: either
/// it was queued already, or it was offered earlier, or it is accepted now.
proof fn lemma_offered_key_taken(
    existing: Seq<Seq<u8>>,
    candidates: Seq<ImportCandidate>,
    j: int,
    k: int,
)
    requires
        0 <= j < k <= candidates.len() <= usize::MAX,
        candidates[j].supported,
    ensures
        (existing + accepted_upto(existing, candidates, k).map_values(
            |i: usize| candidates[i as int].key@,
        )).contains(candidates[j].key@),
    decreases k,
{
    let key = candidates[j].key@;
    let before = accepted_upto(existing, candidates, k - 1);
    let now = accepted_upto(existing, candidates, k);
    let taken_before = existing + before.map_values(|i: usize| candidates[i as int].key@);
    let taken_now = existing + now.map_values(|i: usize| candidates[i as int].key@);
    if now != before {
        assert(now == before.push((k - 1) as usize));
        assert(taken_now =~= taken_before.push(candidates[k - 1].key@));
    }
    assert(forall|w: int| 0 <= w < taken_before.len() ==> taken_now[w] == taken_before[w]);
    if j < k - 1 {
        lemma_offered_key_taken(existing, candidates, j, k - 1);
        let w = choose|w: int| 0 <= w < taken_before.len() && taken_before[w] == key;
        assert(taken_now[w] == key);
    } else if taken_before.contains(key) {
        let w = choose|w: int| 0 <= w < taken_before.len() && taken_before[w] == key;
        assert(taken_now[w] == key);
    } else {
        assert(taken_now[taken_now.len() - 1] == key);
    }
}

/// What the import keeps of the candidates: exactly the first supported
/// offer of each file that is not queued yet, in the order offered. No
/// accepted candidate is a file already queued, and no file is accepted
/// twice.
pub proof fn lemma_import_selection(
    existing: Seq<Seq<u8>>,
    candidates: Seq<ImportCandidate>,
    k: int,
)
    requires
        0 <= k <= candidates.len() <= usize::MAX,
    ensures
        ({
            let s = accepted_upto(existing, candidates, k);
            &&& forall|i: int| 0 <= i < s.len() ==> #[trigger] s[i] < k
            &&& forall|i: int| 0 <= i < s.len() ==> candidates[#[trigger] s[i] as int].supported
            &&& forall|i: int, j: int| 0 <= i < j < s.len() ==> s[i] < s[j]
            &&& forall|i: int, j: int|
                0 <= i < s.len() && 0 <= j < existing.len() ==> candidates[s[i] as int].key@
                    != existing[j]
            &&& forall|i: int, j: int|
                0 <= i < j < s.len() ==> candidates[s[i] as int].key@ != candidates[s[j] as int].key@
            &&& forall|m: int|
                0 <= m < k ==> (s.contains(m as usize) <==> first_new_offer(
                    existing,
                    candidates,
                    m,
                ))
        }),
    decreases k,
{
    if k > 0 {
        lemma_import_selection(existing, candidates, k - 1);
        let before = accepted_upto(existing, candidates, k - 1);
        let s = accepted_upto(existing, candidates, k);
        let c = candidates[k - 1];
        let claimed = existing + before.map_values(|i: usize| candidates[i as int].key@);
        assert forall|u: usize| #[trigger] before.contains(u) implies s.contains(u) by {
            let w = choose|w: int| 0 <= w < before.len() && before[w] == u;
            assert(s[w] == before[w]);
        }
        if c.supported && !claimed.contains(c.key@) {
            assert(s == before.push((k - 1) as usize));
            assert forall|i: int| 0 <= i < s.len() - 1 implies s[i] == before[i] by {}
            assert forall|j: int| 0 <= j < existing.len() implies existing[j] != c.key@ by {
                assert(claimed[j] == existing[j]);
            }
            assert forall|i: int| 0 <= i < before.len() implies candidates[before[i] as int].key@
                != c.key@ by {
                assert(claimed[existing.len() + i] == candidates[before[i] as int].key@);
            }
            assert forall|j: int| 0 <= j < k - 1 && candidates[j].supported implies candidates[j].key@
                != c.key@ by {
                lemma_offered_key_taken(existing, candidates, j, k - 1);
            }
            assert forall|u: usize| u < k - 1 && #[trigger] s.contains(u) implies before.contains(
                u,
            ) by {
                let w = choose|w: int| 0 <= w < s.len() && s[w] == u;
                assert(w < before.len());
                assert(before[w] == u);
            }
            assert(s[s.len() - 1] == (k - 1) as usize);
            assert(first_new_offer(existing, candidates, k - 1));
        } else {
            assert(s == before);
            if s.contains((k - 1) as usize) {
                let w = choose|w: int| 0 <= w < s.len() && s[w] == (k - 1) as usize;
                assert(s[w] < k - 1);
            }
            if c.supported {
                let w = choose|w: int| 0 <= w < claimed.len() && claimed[w] == c.key@;
                if w < existing.len() {
                    assert(existing[w] == c.key@);
                } else {
                    let j = before[w - existing.len()] as int;
                    assert(candidates[j].key@ == c.key@);
                    assert(candidates[j].supported);
                    assert(j < k - 1);
                }
            }
            assert(!first_new_offer(existing, candidates, k - 1));
        }
    }
}

fn same_bytes(a: &Vec<u8>, b: &Vec<u8>) -> (r: bool)
    ensures
        r == (a@ == b@),
{
    if a.len() != b.len() {
        return false;
    }
    let mut i: usize = 0;
    while i < a.len()
        invariant
            i <= a.len() == b.len(),
            a@.subrange(0, i as int) == b@.subrange(0, i as int),
        decreases a.len() - i,
    {
        if a[i] != b[i] {
            assert(a@[i as int] != b@[i as int]);
            return false;
        }
        i = i + 1;
        assert(a@.subrange(0, i as int) =~= b@.subrange(0, i as int));
    }
    assert(a@ =~= a@.subrange(0, a.len() as int));
    assert(b@ =~= b@.subrange(0, b.len() as int));
    true
}

/// Chooses which offered paths to import: supported images that are not
/// already queued and not offered twice. Returns the positions of the
/// accepted candidates, in order, and how many were skipped.
pub fn select_import_candidates(existing: &Vec<Vec<u8>>, candidates: &Vec<ImportCandidate>) -> (r: (
    Vec<usize>,
    usize,
))
    ensures
        r.0@ == accepted_upto(
            existing@.map_values(|k: Vec<u8>| k@),
            candidates@,
            candidates@.len() as int,
        ),
        r.0@.len() + r.1 == candidates@.len(),
        forall|i: int| 0 <= i < r.0@.len() ==> #[trigger] r.0@[i] < candidates@.len(),
        forall|i: int| 0 <= i < r.0@.len() ==> candidates@[#[trigger] r.0@[i] as int].supported,
        forall|i: int, j: int| 0 <= i < j < r.0@.len() ==> r.0@[i] < r.0@[j],
        forall|i: int, j: int|
            0 <= i < r.0@.len() && 0 <= j < existing@.len() ==> candidates@[r.0@[i] as int].key@
                != existing@[j]@,
        forall|i: int, j: int|
            0 <= i < j < r.0@.len() ==> candidates@[r.0@[i] as int].key@ != candidates@[r.0@[
                j
            ] as int].key@,
        forall|m: usize|
            m < candidates@.len() ==> (#[trigger] r.0@.contains(m) <==> first_new_offer(
                existing@.map_values(|k: Vec<u8>| k@),
                candidates@,
                m as int,
            )),
{
    let ghost ex = existing@.map_values(|k: Vec<u8>| k@);

    let mut accepted: Vec<usize> = Vec::new();
    let mut skipped: usize = 0;
    let mut i: usize = 0;
    while i < candidates.len()
        invariant
            i <= candidates@.len(),
            ex == existing@.map_values(|k: Vec<u8>| k@),
            accepted@ == accepted_upto(ex, candidates@, i as int),
            accepted@.len() + skipped == i,
            forall|j: int| 0 <= j < accepted@.len() ==> #[trigger] accepted@[j] < i,
        decreases candidates.len() - i,
    {
        let candidate = &candidates[i];
        let ghost taken = ex + accepted@.map_values(|a: usize| candidates@[a as int].key@);
        let mut duplicate = false;
        if candidate.supported {
            let mut k: usize = 0;
            while k < existing.len()
                invariant
                    k <= existing@.len(),
                    ex == existing@.map_values(|k: Vec<u8>| k@),
                    duplicate == ex.subrange(0, k as int).contains(candidate.key@),
                decreases existing.len() - k,
            {
                proof {
                    let before = ex.subrange(0, k as int);
                    assert(ex.subrange(0, k + 1) =~= before.push(ex[k as int]));
                    vstd::seq_lib::lemma_seq_contains_after_push(before, ex[k as int], candidate.key@);
                }
                if same_bytes(&existing[k], &candidate.key) {
                    duplicate = true;
                }
                k = k + 1;
            }
            assert(ex.subrange(0, existing@.len() as int) =~= ex);
            let mut m: usize = 0;
            while m < accepted.len()
                invariant
                    m <= accepted@.len(),
                    i < candidates@.len(),
                    forall|j: int| 0 <= j < accepted@.len() ==> #[trigger] accepted@[j] < i,
                    duplicate == (ex.contains(candidate.key@) || accepted@.subrange(
                        0,
                        m as int,
                    ).map_values(|a: usize| candidates@[a as int].key@).contains(candidate.key@)),
                decreases accepted.len() - m,
            {
                let earlier = accepted[m];
                proof {
                    let before = accepted@.subrange(0, m as int).map_values(
                        |a: usize| candidates@[a as int].key@,
                    );
                    let after = accepted@.subrange(0, m + 1).map_values(
                        |a: usize| candidates@[a as int].key@,
                    );
                    assert(after =~= before.push(candidates@[earlier as int].key@));
                    vstd::seq_lib::lemma_seq_contains_after_push(
                        before,
                        candidates@[earlier as int].key@,
                        candidate.key@,
                    );
                }
                if same_bytes(&candidates[earlier].key, &candidate.key) {
                    duplicate = true;
                }
                m = m + 1;
            }
            proof {
                let acc_keys = accepted@.map_values(|a: usize| candidates@[a as int].key@);
                assert(accepted@.subrange(0, accepted@.len() as int) =~= accepted@);
                assert(taken =~= ex + acc_keys);
                vstd::seq_lib::lemma_seq_concat_contains_all_elements(ex, acc_keys, candidate.key@);
            }
        }
        if candidate.supported && !duplicate {
            accepted.push(i);
        } else {
            skipped = skipped + 1;
        }
        i = i + 1;
    }
    proof {
        assert(candidates@.len() == candidates.len());
        lemma_import_selection(ex, candidates@, candidates@.len() as int);
        assert forall|a: int, j: int|
            0 <= a < accepted@.len() && 0 <= j < existing@.len() implies candidates@[accepted@[
                a
            ] as int].key@ != existing@[j]@ by {
            assert(ex[j] == existing@[j]@);
        }
    }
    (accepted, skipped)
}

// ---------------------------------------------------------------------------
// Zoom
// ---------------------------------------------------------------------------

/// The magnification for a zoom step: step 0 (and any step past the last)
/// fits the image to the view (`None`); steps 1, 2, 3 show it at 1×, 2×, 4×.
pub fn zoom_scale_from_index(index: u32) -> (scale: Option<u32>)
    ensures
        scale == (if index == 1 {
            Some(1u32)
        } else if index == 2 {
            Some(2u32)
        } else if index == 3 {
            Some(4u32)
        } else {
            None
        }),
{
    match index {
        1 => Some(1),
        2 => Some(2),
        3 => Some(4),
        _ => None,
    }
}

// ---------------------------------------------------------------------------
// Batch summary
// ---------------------------------------------------------------------------

/// Counts and byte totals over a finished batch.
#[derive(Debug, Clone, Copy, PartialEq, Eq, Structural)]
pub struct BatchSummary {
    pub result_count: usize,
    pub skipped_count: usize,
    pub exported_count: usize,
    pub bytes_before: u64,
    pub bytes_after: u64,
}

pub open spec fn total_original(results: Seq<ProcessResult>) -> nat
    decreases results.len(),
{
    if results.len() == 0 {
        0
    } else {
        total_original(results.drop_last()) + results.last().original_bytes as nat
    }
}

pub open spec fn total_output(results: Seq<ProcessResult>) -> nat
    decreases results.len(),
{
    if results.len() == 0 {
        0
    } else {
        total_output(results.drop_last()) + results.last().output_bytes as nat
    }
}

pub open spec fn skipped_in(results: Seq<ProcessResult>) -> nat
    decreases results.len(),
{
    if results.len() == 0 {
        0
    } else {
        skipped_in(results.drop_last()) + if results.last().skipped_not_smaller {
            1nat
        } else {
            0nat
        }
    }
}

proof fn lemma_skipped_at_most(results: Seq<ProcessResult>)
    ensures
        skipped_in(results) <= results.len(),
    decreases results.len(),
{
    if results.len() > 0 {
        lemma_skipped_at_most(results.drop_last());
    }
}

proof fn lemma_totals_grow(results: Seq<ProcessResult>, k: int)
    requires
        0 <= k <= results.len(),
    ensures
        total_original(results.subrange(0, k)) <= total_original(results),
        total_output(results.subrange(0, k)) <= total_output(results),
    decreases results.len() - k,
{
    if k < results.len() {
        lemma_totals_grow(results, k + 1);
        assert(results.subrange(0, k + 1).drop_last() =~= results.subrange(0, k));
    } else {
        assert(results.subrange(0, k) =~= results);
    }
}

/// The batch totals are plain sums over the results: one result counts
/// exactly its own source size, output size and skip flag, whatever its
/// destination, and the totals of two batches taken together add up.
pub proof fn lemma_batch_totals_are_sums(
    first: Seq<ProcessResult>,
    second: Seq<ProcessResult>,
    r: ProcessResult,
)
    ensures
        total_original(seq![r]) == r.original_bytes,
        total_output(seq![r]) == r.output_bytes,
        skipped_in(seq![r]) == (if r.skipped_not_smaller {
            1nat
        } else {
            0nat
        }),
        total_original(first + second) == total_original(first) + total_original(second),
        total_output(first + second) == total_output(first) + total_output(second),
        skipped_in(first + second) == skipped_in(first) + skipped_in(second),
    decreases second.len(),
{
    let one = seq![r];
    assert(one.drop_last() =~= Seq::<ProcessResult>::empty());
    assert(one.last() == r);
    assert(total_original(one) == total_original(one.drop_last()) + r.original_bytes);
    assert(total_output(one) == total_output(one.drop_last()) + r.output_bytes);
    assert(skipped_in(one) == skipped_in(one.drop_last()) + if r.skipped_not_smaller {
        1nat
    } else {
        0nat
    });
    if second.len() == 0 {
        assert(first + second =~= first);
    } else {
        lemma_batch_totals_are_sums(first, second.drop_last(), r);
        assert((first + second).drop_last() =~= first + second.drop_last());
        assert((first + second).last() == second.last());
    }
}

/// Sums up a batch: how many results, how many were skipped as already
/// optimized, how many were exported, and the source and output byte totals.
pub fn summarize_batch(results: &Vec<ProcessResult>) -> (s: BatchSummary)
    requires
        total_original(results@) <= u64::MAX,
        total_output(results@) <= u64::MAX,
    ensures
        s.result_count == results@.len(),
        s.skipped_count == skipped_in(results@),
        s.exported_count == results@.len() - skipped_in(results@),
        s.bytes_before == total_original(results@),
        s.bytes_after == total_output(results@),
{
    let mut skipped: usize = 0;
    let mut before: u64 = 0;
    let mut after: u64 = 0;
    let mut i: usize = 0;
    while i < results.len()
        invariant
            i <= results@.len(),
            total_original(results@) <= u64::MAX,
            total_output(results@) <= u64::MAX,
            skipped == skipped_in(results@.subrange(0, i as int)),
            skipped <= i,
            before == total_original(results@.subrange(0, i as int)),
            after == total_output(results@.subrange(0, i as int)),
        decreases results.len() - i,
    {
        proof {
            lemma_totals_grow(results@, i + 1);
            assert(results@.subrange(0, i + 1).drop_last() =~= results@.subrange(0, i as int));
        }
        let r = &results[i];
        before = before + r.original_bytes;
        after = after + r.output_bytes;
        if r.skipped_not_smaller {
            skipped = skipped + 1;
        }
        i = i + 1;
    }
    proof {
        assert(results@.subrange(0, results@.len() as int) =~= results@);
        lemma_skipped_at_most(results@);
    }
    BatchSummary {
        result_count: results.len(),
        skipped_count: skipped,
        exported_count: results.len() - skipped,
        bytes_before: before,
        bytes_after: after,
    }
}


// ---------------------------------------------------------------------------
// Which actions are available
// ---------------------------------------------------------------------------

/// Which controls the window enables.
#[derive(Debug, Clone, Copy, PartialEq, Eq, Structural)]
pub struct ActionState {
    /// Optimizing can start.
    pub optimize_enabled: bool,
    /// Settings, import and output controls can be changed.
    pub controls_enabled: bool,
    /// A pending custom quality can be applied.
    pub apply_quality_enabled: bool,
    pub apply_settings_menu_enabled: bool,
    pub apply_selected_enabled: bool,
    pub apply_all_enabled: bool,
    pub clear_enabled: bool,
    pub queue_enabled: bool,
    pub preview_modes_enabled: bool,
}

/// Which controls are available: nothing changes while importing or
/// processing, optimizing needs images and an output folder, and settings
/// cannot be copied while a custom quality is edited but not applied.
pub fn action_state(
    entry_count: usize,
    has_output_dir: bool,
    importing: bool,
    processing: bool,
    custom_quality_selected: bool,
    custom_quality_dirty: bool,
    selected_target_count: usize,
) -> (a: ActionState)
    ensures
        ({
            let busy = importing || processing;
            let pending = custom_quality_selected && custom_quality_dirty;
            a == ActionState {
                optimize_enabled: entry_count > 0 && has_output_dir && !busy && !pending,
                controls_enabled: !busy,
                apply_quality_enabled: !busy && pending,
                apply_settings_menu_enabled: entry_count > 1 && !busy && !pending,
                apply_selected_enabled: selected_target_count > 0 && !busy && !pending,
                apply_all_enabled: entry_count > 1 && !busy && !pending,
                clear_enabled: entry_count > 0 && !busy,
                queue_enabled: entry_count > 0,
                preview_modes_enabled: entry_count > 0 && !busy,
            }
        }),
{
    let busy = importing || processing;
    let pending = custom_quality_selected && custom_quality_dirty;
    ActionState {
        optimize_enabled: entry_count > 0 && has_output_dir && !busy && !pending,
        controls_enabled: !busy,
        apply_quality_enabled: !busy && pending,
        apply_settings_menu_enabled: entry_count > 1 && !busy && !pending,
        apply_selected_enabled: selected_target_count > 0 && !busy && !pending,
        apply_all_enabled: entry_count > 1 && !busy && !pending,
        clear_enabled: entry_count > 0 && !busy,
        queue_enabled: entry_count > 0,
        preview_modes_enabled: entry_count > 0 && !busy,
    }
}

/// How many of the first `k` entries are selected and not the current one.
pub open spec fn selected_targets_upto(selected: Seq<bool>, current: Option<usize>, k: int) -> nat
    decreases k,
{
    if k <= 0 {
        0
    } else {
        selected_targets_upto(selected, current, k - 1) + if selected[k - 1] && current != Some(
            (k - 1) as usize,
        ) {
            1nat
        } else {
            0nat
        }
    }
}

/// The entries that settings are copied to are all the selected ones but the
/// current one: among the first `k` entries, their count and the current
/// entry, where it is among them and selected, make up all selected entries.
pub proof fn lemma_selected_targets_count(selected: Seq<bool>, current: Option<usize>, k: int)
    requires
        0 <= k <= selected.len() <= usize::MAX,
    ensures
        selected_targets_upto(selected, current, k) + (if current matches Some(c) && c < k
            && selected[c as int] {
            1nat
        } else {
            0nat
        }) == selected.subrange(0, k).filter(|b: bool| b).len(),
    decreases k,
{
    reveal(Seq::filter);
    if k > 0 {
        lemma_selected_targets_count(selected, current, k - 1);
        let upto = selected.subrange(0, k);
        assert(upto.drop_last() =~= selected.subrange(0, k - 1));
        assert(upto.last() == selected[k - 1]);
        assert(upto.filter(|b: bool| b) == if selected[k - 1] {
            upto.drop_last().filter(|b: bool| b).push(upto.last())
        } else {
            upto.drop_last().filter(|b: bool| b)
        });
    } else {
        assert(selected.subrange(0, k).len() == 0);
    }
}

/// How many selected entries the current entry's settings would be copied
/// to: the selected ones other than the current entry.
pub fn count_selected_targets(selected: &[bool], current_index: Option<usize>) -> (n: usize)
    ensures
        n == selected_targets_upto(selected@, current_index, selected@.len() as int),
        n + (if current_index matches Some(c) && c < selected@.len() && selected@[c as int] {
            1nat
        } else {
            0nat
        }) == selected@.filter(|b: bool| b).len(),
{
    proof {
        assert(selected@.len() == selected.len());
        lemma_selected_targets_count(selected@, current_index, selected@.len() as int);
        assert(selected@.subrange(0, selected@.len() as int) =~= selected@);
    }
    let mut n: usize = 0;
    let mut i: usize = 0;
    while i < selected.len()
        invariant
            i <= selected@.len(),
            n == selected_targets_upto(selected@, current_index, i as int),
            n <= i,
        decreases selected.len() - i,
    {
        let is_current = match current_index {
            Some(c) => c == i,
            None => false,
        };
        if selected[i] && !is_current {
            n = n + 1;
        }
        i = i + 1;
    }
    n
}


// ---------------------------------------------------------------------------
// Editing the current entry's settings
// ---------------------------------------------------------------------------

/// Stores a quality choice on the current entry only. Returns whether there
/// was a current entry to store it on; otherwise nothing changes.
pub fn set_current_entry_quality(
    entries: &mut Vec<EntrySettings>,
    current: Option<usize>,
    preset: QualityPreset,
    custom_quality: Option<u8>,
) -> (r: bool)
    ensures
        r == (current matches Some(i) && i < old(entries)@.len()),
        r ==> final(entries)@ == old(entries)@.update(
            current->0 as int,
            EntrySettings { quality_preset: preset, custom_quality, ..old(entries)@[current->0 as int] },
        ),
        !r ==> final(entries)@ == old(entries)@,
{
    match current {
        Some(i) => {
            if i < entries.len() {
                let mut entry = entries[i];
                entry.quality_preset = preset;
                entry.custom_quality = custom_quality;
                entries.set(i, entry);
                true
            } else {
                false
            }
        },
        None => false,
    }
}

/// Stores a width choice on the current entry only. Returns whether there
/// was a current entry to store it on; otherwise nothing changes.
pub fn set_current_entry_resize(
    entries: &mut Vec<EntrySettings>,
    current: Option<usize>,
    width_preset: u32,
    custom_width: u32,
) -> (r: bool)
    ensures
        r == (current matches Some(i) && i < old(entries)@.len()),
        r ==> final(entries)@ == old(entries)@.update(
            current->0 as int,
            EntrySettings { width_preset, custom_width, ..old(entries)@[current->0 as int] },
        ),
        !r ==> final(entries)@ == old(entries)@,
{
    match current {
        Some(i) => {
            if i < entries.len() {
                let mut entry = entries[i];
                entry.width_preset = width_preset;
                entry.custom_width = custom_width;
                entries.set(i, entry);
                true
            } else {
                false
            }
        },
        None => false,
    }
}

// ---------------------------------------------------------------------------
// Preview jobs
// ---------------------------------------------------------------------------

/// The preview jobs: a generation counter that every request advances, and
/// at most one running job plus one pending rerender.
#[derive(Debug, Clone, Copy, PartialEq, Eq, Structural)]
pub struct PreviewJobs {
    pub generation: u64,
    pub running: bool,
    pub pending: bool,
}

/// A preview is requested: the generation advances (wrapping). With a job
/// running, a rerender is marked pending and nothing starts; otherwise a job
/// for the new generation starts (the returned generation).
pub fn preview_requested(jobs: PreviewJobs) -> (r: (PreviewJobs, Option<u64>))
    ensures
        r.0.generation == (if jobs.generation == u64::MAX {
            0
        } else {
            jobs.generation + 1
        }),
        jobs.running ==> r.0.running && r.0.pending && r.1 is None,
        !jobs.running ==> r.0.running && r.0.pending == jobs.pending && r.1 == Some(
            r.0.generation,
        ),
{
    let generation = if jobs.generation == u64::MAX {
        0
    } else {
        jobs.generation + 1
    };
    if jobs.running {
        (PreviewJobs { generation, running: true, pending: true }, None)
    } else {
        (PreviewJobs { generation, running: true, pending: jobs.pending }, Some(generation))
    }
}

/// The running preview job ends: nothing runs or is pending afterwards, and
/// the result says whether the latest preview must be rendered again.
pub fn preview_finished(jobs: PreviewJobs) -> (r: (PreviewJobs, bool))
    ensures
        r.0.generation == jobs.generation,
        !r.0.running,
        !r.0.pending,
        r.1 == jobs.pending,
{
    (PreviewJobs { generation: jobs.generation, running: false, pending: false }, jobs.pending)
}

/// Whether a job of `generation` is still the latest preview request, so its
/// result may be shown.
pub fn preview_is_current(jobs: PreviewJobs, generation: u64) -> (r: bool)
    ensures
        r == (jobs.generation == generation),
{
    jobs.generation == generation
}

// ---------------------------------------------------------------------------
// Preview cache
// ---------------------------------------------------------------------------

/// What a cached preview was rendered from: the image and the settings that
/// change its pixels. The filename options do not.
#[derive(Debug, Clone)]
pub struct PreviewCacheKey {
    pub path: String,
    pub target_width: u32,
    pub quality_preset: QualityPreset,
    pub custom_quality: Option<u8>,
}

/// The cache key for previewing `path` with `options`.
pub fn preview_cache_key(path: &str, options: &ProcessOptions) -> (k: PreviewCacheKey)
    ensures
        k.path@ == path@,
        k.target_width == options.target_width,
        k.quality_preset == options.quality_preset,
        k.custom_quality == options.custom_quality,
{
    PreviewCacheKey {
        path: path.to_owned(),
        target_width: options.target_width,
        quality_preset: options.quality_preset,
        custom_quality: options.custom_quality,
    }
}

/// Whether a stored preview can be shown for a request: same image, width,
/// preset and custom quality.
pub fn preview_cache_hit(stored: &PreviewCacheKey, requested: &PreviewCacheKey) -> (r: bool)
    ensures
        r == (stored.path@ == requested.path@ && stored.target_width == requested.target_width
            && stored.quality_preset == requested.quality_preset && stored.custom_quality
            == requested.custom_quality),
{
    let same_quality = match (stored.custom_quality, requested.custom_quality) {
        (Some(a), Some(b)) => a == b,
        (None, None) => true,
        _ => false,
    };
    stored.path == requested.path && stored.target_width == requested.target_width
        && stored.quality_preset == requested.quality_preset && same_quality
}


// ---------------------------------------------------------------------------
// Removing entries
// ---------------------------------------------------------------------------

/// The preview jobs after the queue changed under them: the generation
/// advances (wrapping), so results of jobs already running are not shown;
/// whether a job runs or is pending stays as it was.
pub open spec fn jobs_invalidated(jobs: PreviewJobs) -> PreviewJobs {
    PreviewJobs {
        generation: if jobs.generation == u64::MAX {
            0
        } else {
            (jobs.generation + 1) as u64
        },
        ..jobs
    }
}

/// The preview jobs after the queue changed under them (see
/// `jobs_invalidated`).
pub fn preview_invalidated(jobs: PreviewJobs) -> (r: PreviewJobs)
    ensures
        r == jobs_invalidated(jobs),
{
    let generation = if jobs.generation == u64::MAX {
        0
    } else {
        jobs.generation + 1
    };
    PreviewJobs { generation, ..jobs }
}

/// The queue after a change: which of the old entries remain (their old
/// positions, in order), the new current entry, and the preview jobs. The
/// cached decoded source and renders are dropped with every such change.
#[derive(Debug, Clone)]
pub struct QueueChange {
    pub kept: Vec<usize>,
    pub current_index: Option<usize>,
    pub jobs: PreviewJobs,
}

/// The positions among the first `k` entries whose key differs from `key`.
pub open spec fn kept_upto(keys: Seq<Seq<u8>>, key: Seq<u8>, k: int) -> Seq<usize>
    decreases k,
{
    if k <= 0 {
        Seq::empty()
    } else if keys[k - 1] != key {
        kept_upto(keys, key, k - 1).push((k - 1) as usize)
    } else {
        kept_upto(keys, key, k - 1)
    }
}

/// Removes every entry whose key (the path's bytes) is `key`. The first
/// remaining entry becomes the current one (none when the queue is empty),
/// and running previews are invalidated.
pub fn remove_entry(keys: &Vec<Vec<u8>>, key: &Vec<u8>, jobs: PreviewJobs) -> (c: QueueChange)
    ensures
        c.kept@ == kept_upto(keys@.map_values(|k: Vec<u8>| k@), key@, keys@.len() as int),
        c.current_index == (if c.kept@.len() > 0 {
            Some(0usize)
        } else {
            None
        }),
        c.jobs == jobs_invalidated(jobs),
{
    let ghost views = keys@.map_values(|k: Vec<u8>| k@);
    let mut kept: Vec<usize> = Vec::new();
    let mut i: usize = 0;
    while i < keys.len()
        invariant
            i <= keys@.len(),
            views == keys@.map_values(|k: Vec<u8>| k@),
            kept@ == kept_upto(views, key@, i as int),
        decreases keys.len() - i,
    {
        if !same_bytes(&keys[i], key) {
            kept.push(i);
        }
        i = i + 1;
    }
    let current_index = if kept.len() > 0 {
        Some(0)
    } else {
        None
    };
    QueueChange { kept, current_index, jobs: preview_invalidated(jobs) }
}

/// Empties the queue: nothing remains, there is no current entry, and
/// running previews are invalidated.
pub fn clear_queue(jobs: PreviewJobs) -> (c: QueueChange)
    ensures
        c.kept@.len() == 0,
        c.current_index is None,
        c.jobs == jobs_invalidated(jobs),
{
    QueueChange { kept: Vec::new(), current_index: None, jobs: preview_invalidated(jobs) }
}

} // verus!
