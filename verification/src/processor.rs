//! The processing pipeline's decisions: resize backend, CPU resizing, the
//! search for the highest JPEG quality that keeps the output no larger than
//! its source, and what an export writes or skips.
//!
//! Decoding, encoding, GPU work and file access are done by the caller; it
//! hands the results in and carries out what these functions decide.
use vstd::prelude::*;

use fast_image_resize::images::{Image, ImageRef};
use fast_image_resize::{FilterType, PixelType, ResizeAlg, ResizeOptions, Resizer};

use crate::image::{format_channels, PixelFormat, RawImage};
use crate::logic::{
    encoding_for, encoding_values, is_jpeg_suffix, is_supported_suffix, message,
    output_mime_type, preset_quality, quality_percentage, should_skip_non_smaller_jpeg_export,
    skip_non_smaller_jpeg, QualityPreset, ERR_CUSTOM_QUALITY, ERR_NO_EXTENSION,
    ERR_UNSUPPORTED_FORMAT, MIME_JPEG, MIME_PNG,
};
use crate::paths::{extension, path_extension};
use crate::text::normalized_suffix;

verus! {

// ---------------------------------------------------------------------------
// Options and results
// ---------------------------------------------------------------------------

#[derive(Debug, Clone, Copy, PartialEq, Eq, Structural)]
pub enum ResizeBackend {
    Cpu,
    Gpu,
}

#[derive(Debug, Clone, Copy)]
pub struct ImageProcessor {
    resize_backend: ResizeBackend,
}

impl ImageProcessor {
    /// The processor for this machine: resizing goes to the GPU when one is
    /// available, to the CPU otherwise.
    pub fn with_gpu_availability(gpu_available: bool) -> (p: ImageProcessor)
        ensures
            p.backend() == (if gpu_available {
                ResizeBackend::Gpu
            } else {
                ResizeBackend::Cpu
            }),
    {
        ImageProcessor {
            resize_backend: if gpu_available {
                ResizeBackend::Gpu
            } else {
                ResizeBackend::Cpu
            },
        }
    }

    pub closed spec fn backend(&self) -> ResizeBackend {
        self.resize_backend
    }

    pub fn resize_backend(&self) -> (r: ResizeBackend)
        ensures
            r == self.backend(),
    {
        self.resize_backend
    }
}

/// The backend that does a resize: the GPU when the processor prefers it,
/// the resize suits the GPU, and the GPU has not failed on it; the CPU
/// otherwise (including as the fallback after a GPU failure).
pub fn resize_backend_for(backend: ResizeBackend, gpu_suitable: bool, gpu_failed: bool) -> (r:
    ResizeBackend)
    ensures
        r == (if backend == ResizeBackend::Gpu && gpu_suitable && !gpu_failed {
            ResizeBackend::Gpu
        } else {
            ResizeBackend::Cpu
        }),
{
    match backend {
        ResizeBackend::Gpu => if gpu_suitable && !gpu_failed {
            ResizeBackend::Gpu
        } else {
            ResizeBackend::Cpu
        },
        ResizeBackend::Cpu => ResizeBackend::Cpu,
    }
}

#[derive(Debug, Clone)]
pub struct ProcessOptions {
    pub target_width: u32,
    pub quality_preset: QualityPreset,
    pub custom_quality: Option<u8>,
    pub add_filename_suffix: bool,
    pub filename_suffix: String,
    pub add_quality_suffix: bool,
}

#[derive(Debug, Clone)]
pub struct ProcessResult {
    pub source: String,
    pub destination: Option<String>,
    pub original_bytes: u64,
    pub output_bytes: u64,
    pub original_width: u32,
    pub original_height: u32,
    pub output_width: u32,
    pub output_height: u32,
    pub skipped_not_smaller: bool,
}

#[derive(Debug, Clone)]
pub struct PreviewResult {
    pub encoded_data: Vec<u8>,
    pub original_bytes: u64,
    pub original_width: u32,
    pub original_height: u32,
    pub output_width: u32,
    pub output_height: u32,
}

// ---------------------------------------------------------------------------
// CPU resize
// ---------------------------------------------------------------------------

pub const ERR_INVALID_SOURCE_BUFFER: &'static str =
    "Invalid source image buffer: Size of buffer is smaller than required";

/// The pixels that fast_image_resize's bilinear convolution produces when
/// resizing `width` × `height` pixels of `channels` bytes each to
/// `target_width` × `target_height`.
pub uninterp spec fn bilinear_resized(
    pixels: Seq<u8>,
    width: u32,
    height: u32,
    channels: nat,
    target_width: u32,
    target_height: u32,
) -> Seq<u8>;

/// Resizes packed 8-bit RGB or RGBA pixels with a bilinear convolution.
///
/// Trusted: calls `fast_image_resize::Resizer::resize` (wrapping the pixels in
/// an `ImageRef` and a fresh `Image`, and taking the `Image`'s buffer back out).
/// The contract claims what the crate's source shows: the source buffer is
/// accepted exactly when it holds `width * height` pixels, and the result
/// holds `target_width * target_height` pixels; and that the result is the
/// named value `bilinear_resized` of the arguments (the crate computes it
/// from them alone, with the same output on every CPU extension).
#[verifier::external_body]
fn resize_pixels(
    pixels: &[u8],
    width: u32,
    height: u32,
    format: PixelFormat,
    target_width: u32,
    target_height: u32,
) -> (r: Option<Vec<u8>>)
    requires
        width * height * format_channels(format) <= usize::MAX,
        target_width * target_height * format_channels(format) <= isize::MAX,
    ensures
        r is Some <==> pixels@.len() >= width * height * format_channels(format),
        r matches Some(v) ==> v@.len() == target_width * target_height * format_channels(format)
            && v@ == bilinear_resized(
            pixels@,
            width,
            height,
            format_channels(format),
            target_width,
            target_height,
        ),
{
    let kind = match format {
        PixelFormat::Rgb8 => PixelType::U8x3,
        PixelFormat::Rgba8 => PixelType::U8x4,
    };
    let source = ImageRef::new(width, height, pixels, kind).ok()?;
    let mut destination = Image::new(target_width, target_height, kind);
    let options = ResizeOptions::new().resize_alg(ResizeAlg::Convolution(FilterType::Bilinear));
    Resizer::new().resize(&source, &mut destination, Some(&options)).ok()?;
    Some(destination.into_vec())
}

/// Resizes an image to `width` × `height` on the CPU with a bilinear filter.
pub fn resize_bilinear(source: &RawImage, width: u32, height: u32) -> (r: Result<RawImage, String>)
    requires
        source.width * source.height * format_channels(source.format) <= usize::MAX,
        width * height * format_channels(source.format) <= isize::MAX,
    ensures
        (source.pixels@.len() >= source.width * source.height * format_channels(source.format))
            ==> (r matches Ok(image) && image.width == width && image.height == height
            && image.format == source.format && image.pixels@.len() == width * height
            * format_channels(source.format) && image.pixels@ == bilinear_resized(
            source.pixels@,
            source.width,
            source.height,
            format_channels(source.format),
            width,
            height,
        )),
        (source.pixels@.len() < source.width * source.height * format_channels(source.format))
            ==> (r matches Err(e) && e@ == ERR_INVALID_SOURCE_BUFFER@),
{
    match resize_pixels(
        source.pixels.as_slice(),
        source.width,
        source.height,
        source.format,
        width,
        height,
    ) {
        Some(pixels) => Ok(RawImage { width, height, format: source.format, pixels }),
        None => Err(message(ERR_INVALID_SOURCE_BUFFER)),
    }
}

// ---------------------------------------------------------------------------
// JPEG quality search
// ---------------------------------------------------------------------------

#[derive(Debug, Clone, Copy, PartialEq, Eq, Structural)]
pub enum SearchPhase {
    /// The requested quality has not been tried yet.
    Initial,
    /// Searching `low..=high` for the highest quality that fits.
    Searching,
    /// Finished.
    Done,
}

/// The abstract state of a search: maximum quality, byte limit, phase, the
/// remaining range `low..=high`, and the best output found so far with the
/// quality it was encoded at.
pub struct SearchView {
    pub max_quality: u8,
    pub limit: u64,
    pub phase: SearchPhase,
    pub low: u8,
    pub high: u8,
    pub best: Option<(Seq<u8>, u8)>,
}

pub open spec fn search_start(max_quality: u8, limit: u64) -> SearchView {
    SearchView { max_quality, limit, phase: SearchPhase::Initial, low: 0, high: 0, best: None }
}

pub open spec fn search_mid(v: SearchView) -> u8 {
    (v.low + (v.high - v.low) / 2) as u8
}

/// The quality to encode next, or `None` when the search is over.
pub open spec fn search_next_quality(v: SearchView) -> Option<u8> {
    match v.phase {
        SearchPhase::Initial => Some(v.max_quality),
        SearchPhase::Searching => Some(search_mid(v)),
        SearchPhase::Done => None,
    }
}

/// The state after the quality asked for was encoded to `encoded`: output
/// within the limit is kept together with its quality.
pub open spec fn search_step(v: SearchView, encoded: Seq<u8>) -> SearchView {
    match v.phase {
        SearchPhase::Initial => if encoded.len() <= v.limit {
            SearchView {
                phase: SearchPhase::Done,
                best: Some((encoded, v.max_quality)),
                ..v
            }
        } else {
            let high: u8 = if v.max_quality == 0 {
                0u8
            } else {
                (v.max_quality - 1) as u8
            };
            SearchView {
                phase: if 1 <= high {
                    SearchPhase::Searching
                } else {
                    SearchPhase::Done
                },
                low: 1,
                high,
                best: None,
                ..v
            }
        },
        SearchPhase::Searching => {
            let mid = search_mid(v);
            if encoded.len() <= v.limit {
                let low = (mid + 1) as u8;
                SearchView {
                    phase: if low <= v.high {
                        SearchPhase::Searching
                    } else {
                        SearchPhase::Done
                    },
                    low,
                    best: Some((encoded, mid)),
                    ..v
                }
            } else {
                let high = (mid - 1) as u8;
                SearchView {
                    phase: if v.low <= high {
                        SearchPhase::Searching
                    } else {
                        SearchPhase::Done
                    },
                    high,
                    ..v
                }
            }
        },
        SearchPhase::Done => v,
    }
}

/// The shape every reachable state has; in particular, the kept output fits
/// the limit.
pub open spec fn search_wf(v: SearchView) -> bool {
    &&& v.phase == SearchPhase::Searching ==> 1 <= v.low <= v.high < v.max_quality
    &&& v.phase == SearchPhase::Searching ==> (v.best matches Some(b) ==> b.1 == (v.low
        - 1) as u8)
    &&& v.phase == SearchPhase::Initial ==> v.best is None
    &&& v.best matches Some(b) ==> b.1 <= v.max_quality && b.0.len() <= v.limit
}

/// How much work is left: decreases with every step until the search is done.
pub open spec fn search_measure(v: SearchView) -> nat {
    match v.phase {
        SearchPhase::Done => 0,
        SearchPhase::Initial => 300,
        SearchPhase::Searching => if v.low <= v.high {
            (v.high - v.low + 1) as nat
        } else {
            0
        },
    }
}

/// The search run to its end when encoding at quality `q` produces `enc(q)`.
pub open spec fn search_run(v: SearchView, enc: spec_fn(u8) -> Seq<u8>) -> SearchView
    decreases search_measure(v),
{
    match search_next_quality(v) {
        Some(q) => {
            let next = search_step(v, enc(q));
            if search_measure(next) < search_measure(v) {
                search_run(next, enc)
            } else {
                v
            }
        },
        None => v,
    }
}

/// How many encodings the search asks for on its way to the end.
pub open spec fn search_encodes(v: SearchView, enc: spec_fn(u8) -> Seq<u8>) -> nat
    decreases search_measure(v),
{
    match search_next_quality(v) {
        Some(q) => {
            let next = search_step(v, enc(q));
            if search_measure(next) < search_measure(v) {
                1 + search_encodes(next, enc)
            } else {
                0
            }
        },
        None => 0,
    }
}

/// The search for the highest JPEG quality (up to a maximum) whose encoded
/// output is no larger than the source.
///
/// The caller encodes at `next_quality()` and hands the bytes to `record`
/// until `next_quality()` is `None`, then takes the result with `finish`.
/// The maximum quality is tried first; if its output is too large, the
/// range below it is searched by bisection.
pub struct JpegQualitySearch {
    max_quality: u8,
    limit: u64,
    phase: SearchPhase,
    low: u8,
    high: u8,
    best: Option<(Vec<u8>, u8)>,
}

impl View for JpegQualitySearch {
    type V = SearchView;

    closed spec fn view(&self) -> SearchView {
        SearchView {
            max_quality: self.max_quality,
            limit: self.limit,
            phase: self.phase,
            low: self.low,
            high: self.high,
            best: match self.best {
                Some(b) => Some((b.0@, b.1)),
                None => None,
            },
        }
    }
}

impl JpegQualitySearch {
    /// A search up to `max_quality` for output of at most `original_bytes`.
    pub fn new(max_quality: u8, original_bytes: u64) -> (s: JpegQualitySearch)
        ensures
            search_wf(s@),
            s@ == search_start(max_quality, original_bytes),
    {
        JpegQualitySearch {
            max_quality,
            limit: original_bytes,
            phase: SearchPhase::Initial,
            low: 0,
            high: 0,
            best: None,
        }
    }

    /// The quality to encode at next, or `None` when the search is over.
    pub fn next_quality(&self) -> (r: Option<u8>)
        requires
            search_wf(self@),
        ensures
            r == search_next_quality(self@),
    {
        match self.phase {
            SearchPhase::Initial => Some(self.max_quality),
            SearchPhase::Searching => Some(self.low + (self.high - self.low) / 2),
            SearchPhase::Done => None,
        }
    }

    /// Takes the output encoded at `next_quality()`; output within the limit
    /// is kept with that quality.
    pub fn record(&mut self, encoded: Vec<u8>)
        requires
            search_wf(old(self)@),
            search_next_quality(old(self)@) is Some,
        ensures
            search_wf(final(self)@),
            final(self)@ == search_step(old(self)@, encoded@),
            search_measure(final(self)@) < search_measure(old(self)@),
    {
        let fits = (encoded.len() as u64) <= self.limit;
        match self.phase {
            SearchPhase::Initial => {
                if fits {
                    self.best = Some((encoded, self.max_quality));
                    self.phase = SearchPhase::Done;
                } else {
                    let high: u8 = if self.max_quality == 0 {
                        0
                    } else {
                        self.max_quality - 1
                    };
                    self.low = 1;
                    self.high = high;
                    self.best = None;
                    self.phase = if 1 <= high {
                        SearchPhase::Searching
                    } else {
                        SearchPhase::Done
                    };
                }
            },
            SearchPhase::Searching => {
                let mid = self.low + (self.high - self.low) / 2;
                if fits {
                    self.best = Some((encoded, mid));
                    self.low = mid + 1;
                    self.phase = if self.low <= self.high {
                        SearchPhase::Searching
                    } else {
                        SearchPhase::Done
                    };
                } else {
                    self.high = mid - 1;
                    self.phase = if self.low <= self.high {
                        SearchPhase::Searching
                    } else {
                        SearchPhase::Done
                    };
                }
            },
            SearchPhase::Done => {},
        }
    }

    /// The kept output and the quality it was encoded at, if any.
    pub fn finish(self) -> (r: Option<(Vec<u8>, u8)>)
        requires
            search_wf(self@),
        ensures
            match r {
                Some(b) => self@.best == Some((b.0@, b.1)) && b.0@.len() <= self@.limit,
                None => self@.best is None,
            },
    {
        self.best
    }
}

/// Whether quality `q` gives output within the limit.
pub open spec fn fits(enc: spec_fn(u8) -> Seq<u8>, limit: u64, q: u8) -> bool {
    enc(q).len() <= limit
}

/// Output size does not shrink as quality rises, for qualities 1..=max.
pub open spec fn size_monotone(enc: spec_fn(u8) -> Seq<u8>, max_quality: u8) -> bool {
    forall|a: u8, b: u8|
        1 <= a <= b <= max_quality ==> #[trigger] enc(a).len() <= #[trigger] enc(b).len()
}

/// What holds of every state reached with encoder `enc`: the kept output is
/// the encoder's output at the kept quality.
pub open spec fn search_faithful(v: SearchView, enc: spec_fn(u8) -> Seq<u8>) -> bool {
    &&& search_wf(v)
    &&& v.best matches Some(b) ==> b.0 == enc(b.1)
    &&& v.best matches Some(b) ==> (b.1 == v.max_quality || 1 <= b.1)
}

/// What holds of a state under monotone sizes: everything above `high` (up
/// to the maximum) does not fit, and when done, nothing above the kept
/// quality does.
pub open spec fn search_sound(v: SearchView, enc: spec_fn(u8) -> Seq<u8>) -> bool {
    &&& search_faithful(v, enc)
    &&& v.phase == SearchPhase::Searching ==> (v.best is None ==> v.low == 1)
    &&& v.phase == SearchPhase::Searching ==> forall|q: u8|
        v.high < q <= v.max_quality ==> !#[trigger] fits(enc, v.limit, q)
    &&& v.phase == SearchPhase::Done ==> match v.best {
        Some(b) => forall|q: u8| b.1 < q <= v.max_quality ==> !#[trigger] fits(enc, v.limit, q),
        None => forall|q: u8| 1 <= q <= v.max_quality ==> !#[trigger] fits(enc, v.limit, q),
    }
}

/// Bits needed to write `n` in binary (0 for 0): for `n >= 1`, the number of
/// bisection steps that narrow a range of `n` candidates down to none.
pub open spec fn bit_length(n: nat) -> nat
    decreases n,
{
    if n == 0 {
        0
    } else {
        1 + bit_length(n / 2)
    }
}

proof fn lemma_bit_length_monotone(a: nat, b: nat)
    requires
        a <= b,
    ensures
        bit_length(a) <= bit_length(b),
    decreases b,
{
    if a > 0 {
        lemma_bit_length_monotone(a / 2, b / 2);
    }
}

proof fn lemma_search_run_faithful(v: SearchView, enc: spec_fn(u8) -> Seq<u8>)
    requires
        v.phase != SearchPhase::Initial,
        search_faithful(v, enc),
    ensures
        search_run(v, enc).phase == SearchPhase::Done,
        search_run(v, enc).max_quality == v.max_quality,
        search_run(v, enc).limit == v.limit,
        search_faithful(search_run(v, enc), enc),
        v.phase == SearchPhase::Searching ==> search_encodes(v, enc) <= bit_length(
            (v.high - v.low + 1) as nat,
        ),
    decreases search_measure(v),
{
    if v.phase == SearchPhase::Searching {
        let mid = search_mid(v);
        let next = search_step(v, enc(mid));
        let n = (v.high - v.low + 1) as nat;
        assert(v.low <= mid <= v.high);
        assert(search_measure(next) < search_measure(v));
        lemma_search_run_faithful(next, enc);
        if next.phase == SearchPhase::Searching {
            let m = (next.high - next.low + 1) as nat;
            assert(m <= n / 2);
            lemma_bit_length_monotone(m, n / 2);
        }
    }
}

proof fn lemma_search_run_sound(v: SearchView, enc: spec_fn(u8) -> Seq<u8>)
    requires
        v.phase != SearchPhase::Initial,
        search_sound(v, enc),
        size_monotone(enc, v.max_quality),
    ensures
        search_sound(search_run(v, enc), enc),
    decreases search_measure(v),
{
    if v.phase == SearchPhase::Searching {
        let mid = search_mid(v);
        let next = search_step(v, enc(mid));
        assert(v.low <= mid <= v.high);
        if !fits(enc, v.limit, mid) {
            assert forall|q: u8| next.high < q <= v.max_quality implies !#[trigger] fits(
                enc,
                v.limit,
                q,
            ) by {
                if q <= v.high {
                    assert(enc(mid).len() <= enc(q).len());
                }
            }
        }
        assert(search_sound(next, enc));
        assert(search_measure(next) < search_measure(v));
        lemma_search_run_sound(next, enc);
    }
}

/// Whatever the encoder produces, the search ends with either nothing or
/// the encoder's own output at the kept quality, within the limit. It asks
/// for at most `1 + bit_length(max - 1)` encodings (that is, at most
/// 1 + ⌈log₂ max⌉; at most 8 for qualities up to 100), starting with the
/// maximum; when the maximum already fits, it asks once and keeps that.
pub proof fn lemma_search_keeps_encoder_output(
    max_quality: u8,
    limit: u64,
    enc: spec_fn(u8) -> Seq<u8>,
)
    ensures
        ({
            let start = search_start(max_quality, limit);
            let end = search_run(start, enc);
            &&& search_next_quality(start) == Some(max_quality)
            &&& end.phase == SearchPhase::Done
            &&& end.best matches Some(b) ==> b.0 == enc(b.1) && b.0.len() <= limit && b.1
                <= max_quality && (b.1 == max_quality || 1 <= b.1)
            &&& search_encodes(start, enc) <= 1 + bit_length(
                (if max_quality == 0 {
                    0
                } else {
                    max_quality - 1
                }) as nat,
            )
            &&& max_quality <= 100 ==> search_encodes(start, enc) <= 8
            &&& fits(enc, limit, max_quality) ==> search_encodes(start, enc) == 1 && end.best
                == Some((enc(max_quality), max_quality))
        }),
{
    let start = search_start(max_quality, limit);
    let next = search_step(start, enc(max_quality));
    assert(search_measure(next) < search_measure(start));
    assert(search_faithful(next, enc));
    lemma_search_run_faithful(next, enc);
    assert(search_run(start, enc) == search_run(next, enc));
    assert(search_encodes(start, enc) == 1 + search_encodes(next, enc));
    let bound = (if max_quality == 0 {
        0
    } else {
        max_quality - 1
    }) as nat;
    if next.phase == SearchPhase::Searching {
        assert((next.high - next.low + 1) as nat == bound);
    }
    if max_quality <= 100 {
        lemma_bit_length_monotone(bound, 99);
        reveal_with_fuel(bit_length, 8);
        assert(bit_length(99) == 7);
    }
}

/// Under output sizes that do not shrink as quality rises, the search ends
/// with the highest quality (at most the maximum) whose output fits, or with
/// none when no quality from 1 up fits.
pub proof fn lemma_search_finds_highest_fitting(
    max_quality: u8,
    limit: u64,
    enc: spec_fn(u8) -> Seq<u8>,
)
    requires
        size_monotone(enc, max_quality),
    ensures
        ({
            let end = search_run(search_start(max_quality, limit), enc);
            &&& end.phase == SearchPhase::Done
            &&& match end.best {
                Some(b) => b.0 == enc(b.1) && b.1 <= max_quality && fits(enc, limit, b.1)
                    && forall|p: u8| b.1 < p <= max_quality ==> !#[trigger] fits(enc, limit, p),
                None => forall|p: u8| 1 <= p <= max_quality ==> !#[trigger] fits(enc, limit, p),
            }
        }),
{
    let start = search_start(max_quality, limit);
    let next = search_step(start, enc(max_quality));
    assert(search_measure(next) < search_measure(start));
    if !fits(enc, limit, max_quality) {
        assert forall|q: u8| next.high < q <= max_quality implies !#[trigger] fits(
            enc,
            limit,
            q,
        ) by {
            assert(q == max_quality);
        }
    }
    assert(search_sound(next, enc));
    lemma_search_run_faithful(next, enc);
    lemma_search_run_sound(next, enc);
    assert(search_run(start, enc) == search_run(next, enc));
}

/// How the JPEG encoding went, taken from a finished search: its kept output
/// and quality, or no fitting quality.
pub fn jpeg_outcome(search: JpegQualitySearch) -> (o: EncodeOutcome)
    requires
        search_wf(search@),
    ensures
        match search@.best {
            Some(b) => o matches EncodeOutcome::Encoded { data, quality } && data@ == b.0
                && quality == Some(b.1),
            None => o matches EncodeOutcome::NoFittingQuality,
        },
{
    match search.finish() {
        Some((data, quality)) => EncodeOutcome::Encoded { data, quality: Some(quality) },
        None => EncodeOutcome::NoFittingQuality,
    }
}

// ---------------------------------------------------------------------------
// Encoding plan
// ---------------------------------------------------------------------------

/// What the encoder is asked to produce for a source file.
#[derive(Debug, Clone)]
pub struct EncodingPlan {
    pub source_suffix: String,
    pub mime: &'static str,
    pub quality: Option<u8>,
    pub compression: Option<u8>,
}

/// The output format and encoder settings for `source`: the format follows
/// the source extension; JPEG gets a quality ceiling, PNG a compression
/// effort.
pub fn plan_encoding(source: &str, options: &ProcessOptions) -> (r: Result<EncodingPlan, String>)
    ensures
        match path_extension(source@) {
            None => r matches Err(e) && e@ == ERR_NO_EXTENSION@,
            Some(ext) => if !is_supported_suffix(normalized_suffix(ext)) {
                r matches Err(e) && e@ == ERR_UNSUPPORTED_FORMAT@ + ext
            } else {
                match preset_quality(options.quality_preset, options.custom_quality) {
                    None => r matches Err(e) && e@ == ERR_CUSTOM_QUALITY@,
                    Some(q) => r matches Ok(plan) && plan.source_suffix@ == ext && plan.mime == (
                    if is_jpeg_suffix(normalized_suffix(ext)) {
                        MIME_JPEG
                    } else {
                        MIME_PNG
                    }) && encoding_for(options.quality_preset, q, normalized_suffix(ext)) == Some(
                        (plan.quality, plan.compression),
                    ),
                }
            },
        },
{
    let source_suffix = match extension(source) {
        Some(s) => s,
        None => {
            return Err(message(ERR_NO_EXTENSION));
        },
    };
    let mime = match output_mime_type(source_suffix.as_str()) {
        Ok(m) => m,
        Err(e) => {
            return Err(e);
        },
    };
    let (quality, compression) = match encoding_values(
        options.quality_preset,
        source_suffix.as_str(),
        options.custom_quality,
    ) {
        Ok(v) => v,
        Err(e) => {
            return Err(e);
        },
    };
    Ok(EncodingPlan { source_suffix, mime, quality, compression })
}

// ---------------------------------------------------------------------------
// Settling a render and planning an export
// ---------------------------------------------------------------------------

/// How encoding went.
#[derive(Debug, Clone)]
pub enum EncodeOutcome {
    /// The image was encoded to `data`, at `quality` for JPEG.
    Encoded { data: Vec<u8>, quality: Option<u8> },
    /// No JPEG quality from 1 up to the ceiling gave output within the source
    /// size.
    NoFittingQuality,
}

/// What a render hands on: its encoded output, or (`encoded` is `None`) the
/// source file's own bytes, with the dimensions and effective quality that
/// go with it.
#[derive(Debug, Clone)]
pub struct RenderDecision {
    pub encoded: Option<Vec<u8>>,
    pub output_width: u32,
    pub output_height: u32,
    pub effective_quality: Option<u8>,
}

/// Decides what a render produces. The source's own bytes stand in for the
/// encoded output when no JPEG quality fits, and when the JPEG output would
/// not be smaller than the source; then the dimensions are the original ones
/// and there is no effective quality. Otherwise the encoded output is handed
/// on unchanged, with its quality.
pub fn settle_render(
    source_suffix: &str,
    original_bytes: u64,
    original_width: u32,
    original_height: u32,
    output_width: u32,
    output_height: u32,
    outcome: EncodeOutcome,
) -> (d: RenderDecision)
    ensures
        ({
            let keeps_source = d.encoded is None && d.output_width == original_width
                && d.output_height == original_height && d.effective_quality is None;
            match outcome {
                EncodeOutcome::NoFittingQuality => keeps_source,
                EncodeOutcome::Encoded { data, quality } => if skip_non_smaller_jpeg(
                    source_suffix@,
                    original_bytes,
                    data@.len() as u64,
                    original_width == output_width && original_height == output_height,
                ) {
                    keeps_source
                } else {
                    &&& d.encoded matches Some(e) && e@ == data@
                    &&& d.output_width == output_width
                    &&& d.output_height == output_height
                    &&& d.effective_quality == quality
                },
            }
        }),
{
    match outcome {
        EncodeOutcome::NoFittingQuality => RenderDecision {
            encoded: None,
            output_width: original_width,
            output_height: original_height,
            effective_quality: None,
        },
        EncodeOutcome::Encoded { data, quality } => {
            let encoded_bytes = data.len() as u64;
            if should_skip_non_smaller_jpeg_export(
                source_suffix,
                original_bytes,
                encoded_bytes,
                original_width,
                original_height,
                output_width,
                output_height,
            ) {
                RenderDecision {
                    encoded: None,
                    output_width: original_width,
                    output_height: original_height,
                    effective_quality: None,
                }
            } else {
                RenderDecision { encoded: Some(data), output_width, output_height, effective_quality: quality }
            }
        },
    }
}

/// The outcome of a render, as an export sees it.
#[derive(Debug, Clone)]
pub struct RenderSummary {
    pub source_suffix: String,
    pub original_bytes: u64,
    pub encoded_bytes: u64,
    pub original_width: u32,
    pub original_height: u32,
    pub output_width: u32,
    pub output_height: u32,
    pub effective_quality: Option<u8>,
}

/// What an export does with a render.
#[derive(Debug, Clone)]
pub enum ExportPlan {
    /// Nothing is written: a JPEG output would not be smaller than its source.
    Skip,
    /// A new file is written, named with these suffixes.
    Write { filename_suffix: String, quality_suffix: Option<u8> },
}

pub open spec fn render_skipped(render: RenderSummary) -> bool {
    skip_non_smaller_jpeg(
        render.source_suffix@,
        render.original_bytes,
        render.encoded_bytes,
        render.original_width == render.output_width && render.original_height
            == render.output_height,
    )
}

/// Decides whether a render is exported, and with which name suffixes: the
/// filename suffix when enabled, and the quality suffix when enabled (the
/// effective JPEG quality, else the preset's quality).
pub fn plan_export(render: &RenderSummary, options: &ProcessOptions) -> (r: Result<
    ExportPlan,
    String,
>)
    ensures
        render_skipped(*render) ==> r matches Ok(ExportPlan::Skip),
        (!render_skipped(*render) && options.add_quality_suffix && render.effective_quality is None
            && preset_quality(options.quality_preset, options.custom_quality) is None) ==> (r matches Err(
            e,
        ) && e@ == ERR_CUSTOM_QUALITY@),
        (!render_skipped(*render) && !(options.add_quality_suffix && render.effective_quality is None
            && preset_quality(options.quality_preset, options.custom_quality) is None)) ==> (
        r matches Ok(ExportPlan::Write { filename_suffix, quality_suffix }) && filename_suffix@ == (
        if options.add_filename_suffix {
            options.filename_suffix@
        } else {
            Seq::<char>::empty()
        }) && quality_suffix == (if !options.add_quality_suffix {
            None
        } else {
            match render.effective_quality {
                Some(q) => Some(q),
                None => preset_quality(options.quality_preset, options.custom_quality),
            }
        })),
        // An exported JPEG is never larger than its source.
        (r matches Ok(ExportPlan::Write { .. }) && is_jpeg_suffix(
            normalized_suffix(render.source_suffix@),
        )) ==> render.encoded_bytes <= render.original_bytes,
{
    if should_skip_non_smaller_jpeg_export(
        render.source_suffix.as_str(),
        render.original_bytes,
        render.encoded_bytes,
        render.original_width,
        render.original_height,
        render.output_width,
        render.output_height,
    ) {
        return Ok(ExportPlan::Skip);
    }
    let filename_suffix = if options.add_filename_suffix {
        options.filename_suffix.clone()
    } else {
        String::new()
    };
    let quality_suffix = if options.add_quality_suffix {
        match render.effective_quality {
            Some(q) => Some(q),
            None => match quality_percentage(options.quality_preset, options.custom_quality) {
                Ok(q) => Some(q),
                Err(e) => {
                    return Err(e);
                },
            },
        }
    } else {
        None
    };
    Ok(ExportPlan::Write { filename_suffix, quality_suffix })
}

/// The result of an export that was skipped: nothing written, the output
/// counted at the source's size.
pub fn skipped_result(source: String, render: &RenderSummary) -> (r: ProcessResult)
    ensures
        r.source == source,
        r.destination is None,
        r.original_bytes == render.original_bytes,
        r.output_bytes == render.original_bytes,
        r.original_width == render.original_width,
        r.original_height == render.original_height,
        r.output_width == render.output_width,
        r.output_height == render.output_height,
        r.skipped_not_smaller,
{
    ProcessResult {
        source,
        destination: None,
        original_bytes: render.original_bytes,
        output_bytes: render.original_bytes,
        original_width: render.original_width,
        original_height: render.original_height,
        output_width: render.output_width,
        output_height: render.output_height,
        skipped_not_smaller: true,
    }
}

} // verus!
