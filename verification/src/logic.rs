//! The rules of Image Bench: target dimensions, quality and compression
//! mapping, output naming and the "never larger than the source" export rule.
use vstd::prelude::*;
use vstd::arithmetic::power2::{pow2, lemma_pow2_unfold, lemma2_to64};
use vstd::arithmetic::div_mod::{lemma_div_denominator, lemma_fundamental_div_mod};

use crate::paths::{extension, file_stem, path_extension, path_file_stem};
use crate::text::{
    ascii_lower, chars_equal, contains_char, decimal, digit_char, lemma_decimal_digits,
    lemma_decimal_injective, lowercase_chars, normalize_suffix_chars, normalized_suffix, push_char, push_decimal,
    push_str, string_from_range, trim, trim_chars,
};

verus! {

// ---------------------------------------------------------------------------
// Messages
// ---------------------------------------------------------------------------

pub const ERR_DIMENSIONS: &'static str = "Image dimensions must be positive";

pub const ERR_REQUESTED_WIDTH: &'static str = "Requested width must be positive";

pub const ERR_QUALITY_RANGE: &'static str = "Quality must be between 1 and 100";

pub const ERR_CUSTOM_QUALITY: &'static str = "Custom quality is required and must be between 1 and 100";

pub const ERR_UNSUPPORTED_FORMAT: &'static str = "Unsupported output format: ";

pub const ERR_SUFFIX_SEPARATORS: &'static str = "Filename suffix cannot contain path separators";

pub const ERR_STEM_NOT_UTF8: &'static str = "Source filename is not valid UTF-8";

pub const ERR_NO_EXTENSION: &'static str = "Source file has no extension";

pub const ERR_QUALITY_SUFFIX: &'static str = "Quality suffix must be between 1 and 100";

pub const ERR_TOO_MANY_COLLISIONS: &'static str = "Too many filename collisions";

pub const MIME_JPEG: &'static str = "image/jpeg";

pub const MIME_PNG: &'static str = "image/png";

/// A `String` with the characters of `msg`.
pub(crate) fn message(msg: &str) -> (s: String)
    ensures
        s@ == msg@,
{
    msg.to_owned()
}

// ---------------------------------------------------------------------------
// Presets
// ---------------------------------------------------------------------------

#[derive(Debug, Clone, Copy, PartialEq, Eq, Structural)]
pub enum QualityPreset {
    High,
    Balanced,
    Compact,
    Custom,
}

/// The quality percentage that a preset stands for; for `Custom`, the custom
/// value when it lies in 1..=100.
pub open spec fn preset_quality(preset: QualityPreset, custom_quality: Option<u8>) -> Option<u8> {
    match preset {
        QualityPreset::High => Some(92u8),
        QualityPreset::Balanced => Some(85u8),
        QualityPreset::Compact => Some(75u8),
        QualityPreset::Custom => match custom_quality {
            Some(v) => if 1 <= v && v <= 100 {
                Some(v)
            } else {
                None
            },
            None => None,
        },
    }
}

// ---------------------------------------------------------------------------
// Suffixes
// ---------------------------------------------------------------------------

pub open spec fn is_jpeg_suffix(s: Seq<char>) -> bool {
    s == seq!['j', 'p', 'g'] || s == seq!['j', 'p', 'e', 'g']
}

pub open spec fn is_png_suffix(s: Seq<char>) -> bool {
    s == seq!['p', 'n', 'g']
}

pub open spec fn is_supported_suffix(s: Seq<char>) -> bool {
    is_jpeg_suffix(s) || is_png_suffix(s)
}

fn is_jpeg_chars(v: &Vec<char>) -> (r: bool)
    ensures
        r == is_jpeg_suffix(v@),
{
    let jpg = ['j', 'p', 'g'];
    let jpeg = ['j', 'p', 'e', 'g'];
    assert(jpg@ == seq!['j', 'p', 'g']);
    assert(jpeg@ == seq!['j', 'p', 'e', 'g']);
    chars_equal(v, jpg.as_slice()) || chars_equal(v, jpeg.as_slice())
}

fn is_png_chars(v: &Vec<char>) -> (r: bool)
    ensures
        r == is_png_suffix(v@),
{
    let png = ['p', 'n', 'g'];
    assert(png@ == seq!['p', 'n', 'g']);
    chars_equal(v, png.as_slice())
}

/// Whether `path` names a regular file with a JPEG or PNG extension
/// (case-insensitive). Whether it is a regular file is found out by the
/// caller and handed in as `is_file`.
pub fn is_supported_image(path: &str, is_file: bool) -> (r: bool)
    ensures
        r == (is_file && match path_extension(path@) {
            Some(ext) => is_supported_suffix(ascii_lower(ext)),
            None => false,
        }),
{
    if !is_file {
        return false;
    }
    match extension(path) {
        Some(ext) => {
            let lowered = lowercase_chars(ext.as_str());
            is_jpeg_chars(&lowered) || is_png_chars(&lowered)
        },
        None => false,
    }
}

// ---------------------------------------------------------------------------
// Rounding
// ---------------------------------------------------------------------------

/// `n / d` rounded to the nearest integer, ties to the even one.
pub open spec fn round_half_even(n: nat, d: nat) -> nat
    recommends
        d > 0,
{
    let q = n / d;
    let r = n % d;
    if 2 * r < d {
        q
    } else if 2 * r > d || q % 2 == 1 {
        q + 1
    } else {
        q
    }
}

/// The result is `n / d` or one more, and lies within half of `d` of the
/// exact quotient: `|result * d - n| * 2 <= d`.
pub proof fn lemma_round_half_even_bounds(n: nat, d: nat)
    requires
        d > 0,
    ensures
        round_half_even(n, d) == n / d || round_half_even(n, d) == n / d + 1,
        2 * (round_half_even(n, d) * d - n) <= d,
        2 * (n - round_half_even(n, d) * d) <= d,
{
    lemma_fundamental_div_mod(n as int, d as int);
    let q = n / d;
    let r = n % d;
    assert(n == d * q + r);
    assert((q + 1) * d == q * d + d) by (nonlinear_arith);
    assert(q * d == d * q) by (nonlinear_arith);
}

/// Rounding is monotone in the numerator.
pub proof fn lemma_round_half_even_monotone(n1: nat, n2: nat, d: nat)
    requires
        d > 0,
        n1 <= n2,
    ensures
        round_half_even(n1, d) <= round_half_even(n2, d),
{
    lemma_fundamental_div_mod(n1 as int, d as int);
    lemma_fundamental_div_mod(n2 as int, d as int);
    let q1 = n1 / d;
    let q2 = n2 / d;
    if q1 < q2 {
        assert(round_half_even(n1, d) <= q1 + 1);
        assert(q2 <= round_half_even(n2, d));
    } else {
        assert(q1 <= q2) by {
            vstd::arithmetic::div_mod::lemma_div_is_ordered(n1 as int, n2 as int, d as int);
        }
        assert(q1 == q2);
        assert(n1 % d <= n2 % d);
    }
}

/// An exact multiple rounds to its quotient.
pub proof fn lemma_round_half_even_exact(k: nat, d: nat)
    requires
        d > 0,
    ensures
        round_half_even(k * d, d) == k,
{
    vstd::arithmetic::div_mod::lemma_div_multiples_vanish(k as int, d as int);
    vstd::arithmetic::div_mod::lemma_mod_multiples_basic(k as int, d as int);
    assert(d * k == k * d) by (nonlinear_arith);
}

fn round_ratio_half_even(numerator: u128, denominator: u128) -> (r: u128)
    requires
        0 < denominator <= 0x1_0000_0000,
    ensures
        r == round_half_even(numerator as nat, denominator as nat),
{
    let quotient = numerator / denominator;
    let remainder = numerator % denominator;
    let doubled = remainder * 2;
    if doubled < denominator {
        quotient
    } else if doubled > denominator || quotient % 2 == 1 {
        proof {
            if denominator == 1 {
                assert(remainder == 0);
            } else {
                assert(quotient <= numerator / 2) by {
                    vstd::arithmetic::div_mod::lemma_div_is_ordered_by_denominator(
                        numerator as int,
                        2,
                        denominator as int,
                    );
                }
            }
        }
        quotient + 1
    } else {
        quotient
    }
}

// ---------------------------------------------------------------------------
// Dimensions
// ---------------------------------------------------------------------------

/// The width of the output: the requested width, but never wider than the
/// original.
pub open spec fn target_width(original_width: u32, requested_width: u32) -> u32 {
    if requested_width < original_width {
        requested_width
    } else {
        original_width
    }
}

/// The height that keeps the aspect ratio of an `original_width` ×
/// `original_height` image at `width`: rounded half to even, at least 1.
pub open spec fn proportional_height(original_width: u32, original_height: u32, width: u32) -> nat {
    if width == original_width {
        original_height as nat
    } else {
        let h = round_half_even(
            (original_height * width) as nat,
            original_width as nat,
        );
        if h < 1 {
            1
        } else {
            h
        }
    }
}

/// Output dimensions for resizing to `requested_width`, preserving the aspect
/// ratio and never upscaling.
pub fn calculate_dimensions(original_width: u32, original_height: u32, requested_width: u32) -> (r:
    Result<(u32, u32), String>)
    ensures
        (original_width == 0 || original_height == 0) ==> (r matches Err(e) && e@
            == ERR_DIMENSIONS@),
        (original_width > 0 && original_height > 0 && requested_width == 0) ==> (r matches Err(e)
            && e@ == ERR_REQUESTED_WIDTH@),
        (original_width > 0 && original_height > 0 && requested_width > 0) ==> (r matches Ok((w, h))
            && w == target_width(original_width, requested_width)
            && h == proportional_height(original_width, original_height, w)),
{
    if original_width == 0 || original_height == 0 {
        return Err(message(ERR_DIMENSIONS));
    }
    if requested_width == 0 {
        return Err(message(ERR_REQUESTED_WIDTH));
    }
    let target = if requested_width < original_width {
        requested_width
    } else {
        original_width
    };
    if target == original_width {
        return Ok((original_width, original_height));
    }
    assert((original_height as u64) * (target as u64) <= u64::MAX) by (nonlinear_arith)
        requires
            original_height <= u32::MAX,
            target <= u32::MAX,
    ;
    let numerator: u64 = (original_height as u64) * (target as u64);
    let denominator: u64 = original_width as u64;
    let quotient = numerator / denominator;
    let remainder = numerator % denominator;
    let doubled = remainder * 2;
    proof {
        lemma_fundamental_div_mod(numerator as int, denominator as int);
        assert(numerator < original_height * denominator) by (nonlinear_arith)
            requires
                numerator == original_height * target,
                target < denominator,
                original_height > 0,
        ;
        assert(quotient < original_height) by (nonlinear_arith)
            requires
                numerator == denominator * quotient + remainder,
                remainder >= 0,
                numerator < original_height * denominator,
                denominator > 0,
        ;
    }
    let rounded: u64 = if doubled < denominator {
        quotient
    } else if doubled > denominator || quotient % 2 == 1 {
        quotient + 1
    } else {
        quotient
    };
    let height: u64 = if rounded < 1 {
        1
    } else {
        rounded
    };
    Ok((target, height as u32))
}

// ---------------------------------------------------------------------------
// PNG compression
// ---------------------------------------------------------------------------

/// The anchor points (quality, compression) of the lossless PNG mapping, from
/// the highest quality down.
pub open spec fn png_anchor(i: int) -> (int, int) {
    if i == 0 {
        (100, 0)
    } else if i == 1 {
        (92, 40)
    } else if i == 2 {
        (85, 65)
    } else if i == 3 {
        (75, 90)
    } else {
        (1, 100)
    }
}

/// The window (pair of adjacent anchors) that holds quality `q`.
pub open spec fn png_window(q: int) -> int {
    if q >= 92 {
        0
    } else if q >= 85 {
        1
    } else if q >= 75 {
        2
    } else {
        3
    }
}

/// Linear interpolation of the compression within window `i`, rounded half to
/// even.
pub open spec fn png_window_value(i: int, q: int) -> int {
    let high = png_anchor(i);
    let low = png_anchor(i + 1);
    high.1 + round_half_even(
        ((high.0 - q) * (low.1 - high.1)) as nat,
        (high.0 - low.0) as nat,
    )
}

/// PNG compression effort for a quality percentage in 1..=100.
pub open spec fn png_compression(q: int) -> int {
    let v = png_window_value(png_window(q), q);
    if v > 100 {
        100
    } else {
        v
    }
}

/// Maps a quality percentage (1..=100) to lossless PNG compression effort,
/// interpolating between the preset anchors.
pub fn png_compression_for_quality(quality: u8) -> (r: Result<u8, String>)
    ensures
        (1 <= quality <= 100) ==> (r matches Ok(c) && c == png_compression(quality as int)),
        !(1 <= quality <= 100) ==> (r matches Err(e) && e@ == ERR_QUALITY_RANGE@),
{
    if !(1 <= quality && quality <= 100) {
        return Err(message(ERR_QUALITY_RANGE));
    }
    let anchors: [(u8, u8); 5] = [(100, 0), (92, 40), (85, 65), (75, 90), (1, 100)];
    assert(forall|j: int|
        0 <= j < 5 ==> (#[trigger] anchors@[j]).0 == png_anchor(j).0 && anchors@[j].1 == png_anchor(
            j,
        ).1);
    let mut i: usize = 0;
    while i < 4
        invariant
            0 <= i <= 4,
            1 <= quality <= 100,
            anchors@.len() == 5,
            forall|j: int|
                0 <= j < 5 ==> (#[trigger] anchors@[j]).0 == png_anchor(j).0 && anchors@[j].1
                    == png_anchor(j).1,
            quality <= png_anchor(i as int).0,
            i > 0 ==> quality < png_anchor(i as int).0,
        decreases 4 - i,
    {
        let (quality_high, compression_low) = anchors[i];
        let (quality_low, compression_high) = anchors[i + 1];
        if quality_low <= quality && quality <= quality_high {
            let span = (quality_high - quality_low) as u16;
            assert(png_window(quality as int) == i);
            if span == 0 {
                return Ok(compression_low);
            }
            assert(anchors@[i as int].1 == compression_low);
            assert(anchors@[i + 1].1 == compression_high);
            assert(png_anchor(i + 1).1 >= png_anchor(i as int).1);
            let quality_delta: u8 = quality_high - quality;
            let compression_span: u8 = compression_high - compression_low;
            assert((quality_delta as u32) * (compression_span as u32) <= 255 * 255) by (
            nonlinear_arith)
                requires
                    quality_delta <= 255,
                    compression_span <= 255,
            ;
            let numerator: u32 = (quality_delta as u32) * (compression_span as u32);
            let rounded = round_ratio_half_even(numerator as u128, span as u128);
            proof {
                lemma_round_half_even_bounds(numerator as nat, span as nat);
                assert(numerator as nat / span as nat <= numerator) by {
                    vstd::arithmetic::div_mod::lemma_div_is_ordered_by_denominator(
                        numerator as int,
                        1,
                        span as int,
                    );
                }
            }
            let value = (compression_low as u32) + (rounded as u32);
            let clamped = if value < 100 {
                value
            } else {
                100
            };
            return Ok(clamped as u8);
        }
        i = i + 1;
    }
    assert(false);
    Ok(100)
}

// ---------------------------------------------------------------------------
// Encoding values
// ---------------------------------------------------------------------------

/// The PNG compression for a preset at the given quality: the preset's own
/// anchor, or the interpolated value for a custom quality.
pub open spec fn preset_png_compression(preset: QualityPreset, quality: u8) -> u8 {
    match preset {
        QualityPreset::High => 40u8,
        QualityPreset::Balanced => 65u8,
        QualityPreset::Compact => 90u8,
        QualityPreset::Custom => png_compression(quality as int) as u8,
    }
}

/// What `encoding_values` returns when it succeeds, for a normalized suffix;
/// `None` for an unsupported suffix.
pub open spec fn encoding_for(preset: QualityPreset, quality: u8, normalized: Seq<char>) -> Option<
    (Option<u8>, Option<u8>),
> {
    if is_jpeg_suffix(normalized) {
        Some((Some(quality), None))
    } else if is_png_suffix(normalized) {
        Some((None, Some(preset_png_compression(preset, quality))))
    } else {
        None
    }
}

/// The encoder settings for a preset and output suffix: a JPEG quality or a
/// PNG compression effort.
pub fn encoding_values(preset: QualityPreset, suffix: &str, custom_quality: Option<u8>) -> (r:
    Result<(Option<u8>, Option<u8>), String>)
    ensures
        match preset_quality(preset, custom_quality) {
            None => r matches Err(e) && e@ == ERR_CUSTOM_QUALITY@,
            Some(q) => match encoding_for(preset, q, normalized_suffix(suffix@)) {
                Some(values) => r == Ok::<(Option<u8>, Option<u8>), String>(values),
                None => r matches Err(e) && e@ == ERR_UNSUPPORTED_FORMAT@ + suffix@,
            },
        },
{
    let normalized = normalize_suffix_chars(suffix);
    let quality: u8 = match preset {
        QualityPreset::Custom => match custom_quality {
            Some(value) => {
                if 1 <= value && value <= 100 {
                    value
                } else {
                    return Err(message(ERR_CUSTOM_QUALITY));
                }
            },
            None => {
                return Err(message(ERR_CUSTOM_QUALITY));
            },
        },
        QualityPreset::High => 92,
        QualityPreset::Balanced => 85,
        QualityPreset::Compact => 75,
    };
    if is_jpeg_chars(&normalized) {
        Ok((Some(quality), None))
    } else if is_png_chars(&normalized) {
        let compression: u8 = match preset {
            QualityPreset::High => 40,
            QualityPreset::Balanced => 65,
            QualityPreset::Compact => 90,
            QualityPreset::Custom => match png_compression_for_quality(quality) {
                Ok(c) => c,
                Err(e) => {
                    return Err(e);
                },
            },
        };
        Ok((None, Some(compression)))
    } else {
        let mut e = message(ERR_UNSUPPORTED_FORMAT);
        push_str(&mut e, suffix);
        Err(e)
    }
}

/// The MIME type of the output format for a source suffix.
pub fn output_mime_type(suffix: &str) -> (r: Result<&'static str, String>)
    ensures
        is_jpeg_suffix(normalized_suffix(suffix@)) ==> r == Ok::<&'static str, String>(MIME_JPEG),
        is_png_suffix(normalized_suffix(suffix@)) ==> r == Ok::<&'static str, String>(MIME_PNG),
        !is_supported_suffix(normalized_suffix(suffix@)) ==> (r matches Err(e) && e@
            == ERR_UNSUPPORTED_FORMAT@ + suffix@),
{
    let normalized = normalize_suffix_chars(suffix);
    if is_jpeg_chars(&normalized) {
        Ok(MIME_JPEG)
    } else if is_png_chars(&normalized) {
        Ok(MIME_PNG)
    } else {
        let mut e = message(ERR_UNSUPPORTED_FORMAT);
        push_str(&mut e, suffix);
        Err(e)
    }
}

/// The quality percentage of a preset (the custom value for `Custom`).
pub fn quality_percentage(preset: QualityPreset, custom_quality: Option<u8>) -> (r: Result<
    u8,
    String,
>)
    ensures
        match preset_quality(preset, custom_quality) {
            Some(q) => r == Ok::<u8, String>(q),
            None => r matches Err(e) && e@ == ERR_CUSTOM_QUALITY@,
        },
{
    match preset {
        QualityPreset::High => Ok(92),
        QualityPreset::Balanced => Ok(85),
        QualityPreset::Compact => Ok(75),
        QualityPreset::Custom => match custom_quality {
            Some(value) => {
                if 1 <= value && value <= 100 {
                    Ok(value)
                } else {
                    Err(message(ERR_CUSTOM_QUALITY))
                }
            },
            None => Err(message(ERR_CUSTOM_QUALITY)),
        },
    }
}


// ---------------------------------------------------------------------------
// Output file names
// ---------------------------------------------------------------------------

/// Whether a filename suffix holds a character that could leave the output
/// folder or cut the name short.
pub open spec fn has_path_separator(s: Seq<char>) -> bool {
    s.contains('\0') || s.contains('/') || s.contains('\\')
}

/// A suffix counts as holding a path separator exactly when one of its
/// characters is a NUL, a `/` or a `\`; every other character is allowed.
pub proof fn lemma_path_separator_chars(s: Seq<char>)
    ensures
        has_path_separator(s) <==> exists|i: int|
            0 <= i < s.len() && (#[trigger] s[i] == '\0' || s[i] == '/' || s[i] == '\\'),
{
    if has_path_separator(s) {
        if s.contains('\0') {
            let i = choose|i: int| 0 <= i < s.len() && s[i] == '\0';
            assert(s[i] == '\0');
        } else if s.contains('/') {
            let i = choose|i: int| 0 <= i < s.len() && s[i] == '/';
            assert(s[i] == '/');
        } else {
            let i = choose|i: int| 0 <= i < s.len() && s[i] == '\\';
            assert(s[i] == '\\');
        }
    }
}

/// The filename suffix after trimming white space, unless it holds a path
/// separator.
pub fn normalize_filename_suffix(value: &str) -> (r: Result<String, String>)
    ensures
        trim(value@).len() == 0 ==> (r matches Ok(s) && s@.len() == 0),
        (trim(value@).len() > 0 && has_path_separator(trim(value@))) ==> (r matches Err(e) && e@
            == ERR_SUFFIX_SEPARATORS@),
        (trim(value@).len() > 0 && !has_path_separator(trim(value@))) ==> (r matches Ok(s) && s@
            == trim(value@)),
        trim(value@).len() > 0 ==> (r is Err <==> (trim(value@).contains('\0') || trim(
            value@,
        ).contains('/') || trim(value@).contains('\\'))),
        r matches Ok(s) ==> s@ == trim(value@),
{
    let normalized = trim_chars(value);
    if normalized.len() == 0 {
        return Ok(String::new());
    }
    if contains_char(&normalized, '\0') || contains_char(&normalized, '/') || contains_char(
        &normalized,
        '\\',
    ) {
        return Err(message(ERR_SUFFIX_SEPARATORS));
    }
    Ok(string_from_range(&normalized, 0, normalized.len()))
}

/// The quality part of an output stem: `-` and the percentage, or nothing.
pub open spec fn quality_part(quality_suffix: Option<u8>) -> Seq<char> {
    match quality_suffix {
        Some(q) => seq!['-'] + decimal(q as nat),
        None => Seq::empty(),
    }
}

/// The output file name for a stem, an extension and a collision counter:
/// `stem.ext`, or `stem-N.ext` once the plain name is taken.
pub open spec fn destination_name(stem: Seq<char>, ext: Seq<char>, counter: Option<u32>) -> Seq<
    char,
> {
    match counter {
        None => stem + seq!['.'] + ext,
        Some(n) => stem + seq!['-'] + decimal(n as nat) + seq!['.'] + ext,
    }
}

/// The search for an output file name that does not exist yet.
///
/// The caller asks for `candidate_file_name`, checks whether a file of that
/// name exists in the output folder, and calls `advance` while it does. The
/// first candidate is `stem.ext`; then `stem-2.ext`, `stem-3.ext`, and so on.
pub struct DestinationSearch {
    stem: String,
    extension: String,
    counter: Option<u32>,
}

impl View for DestinationSearch {
    type V = (Seq<char>, Seq<char>, Option<u32>);

    closed spec fn view(&self) -> (Seq<char>, Seq<char>, Option<u32>) {
        (self.stem@, self.extension@, self.counter)
    }
}

impl DestinationSearch {
    /// Whether the search is in a state that `collision_safe_destination` and
    /// `advance` produce: the counter, once present, is at least 2.
    pub open spec fn wf(&self) -> bool {
        self@.2 matches Some(n) ==> n >= 2
    }

    /// The file name to try now.
    pub fn candidate_file_name(&self) -> (name: String)
        ensures
            name@ == destination_name(self@.0, self@.1, self@.2),
    {
        let mut name = self.stem.clone();
        if let Some(n) = self.counter {
            push_char(&mut name, '-');
            push_decimal(&mut name, n as u64);
        }
        push_char(&mut name, '.');
        push_str(&mut name, self.extension.as_str());
        proof {
            match self.counter {
                Some(n) => {
                    assert(name@ =~= destination_name(self@.0, self@.1, self@.2));
                },
                None => {
                    assert(name@ =~= destination_name(self@.0, self@.1, self@.2));
                },
            }
        }
        name
    }

    /// Moves on to the next candidate after the current one was found taken.
    /// Fails when the counter cannot grow any further.
    pub fn advance(&mut self) -> (r: Result<(), String>)
        requires
            old(self).wf(),
        ensures
            final(self).wf(),
            final(self)@.0 == old(self)@.0,
            final(self)@.1 == old(self)@.1,
            match old(self)@.2 {
                None => r is Ok && final(self)@.2 == Some(2u32),
                Some(n) => if n < u32::MAX {
                    r is Ok && final(self)@.2 == Some((n + 1) as u32)
                } else {
                    (r matches Err(e) && e@ == ERR_TOO_MANY_COLLISIONS@) && final(self)@.2 == old(
                        self,
                    )@.2
                },
            },
    {
        match self.counter {
            None => {
                self.counter = Some(2);
                Ok(())
            },
            Some(n) => {
                if n == u32::MAX {
                    Err(message(ERR_TOO_MANY_COLLISIONS))
                } else {
                    self.counter = Some(n + 1);
                    Ok(())
                }
            },
        }
    }
}

/// Starts the search for a collision-safe output name for `source`: its file
/// stem, then the filename suffix, then `-` and the quality, then (if the
/// name is taken) `-` and a counter, then the source extension.
pub fn collision_safe_destination(
    source: &str,
    filename_suffix: &str,
    quality_suffix: Option<u8>,
) -> (r: Result<DestinationSearch, String>)
    ensures
        path_file_stem(source@) is None ==> (r matches Err(e) && e@ == ERR_STEM_NOT_UTF8@),
        (path_file_stem(source@) is Some && path_extension(source@) is None) ==> (r matches Err(e)
            && e@ == ERR_NO_EXTENSION@),
        (path_file_stem(source@) is Some && path_extension(source@) is Some && trim(
            filename_suffix@,
        ).len() > 0 && has_path_separator(trim(filename_suffix@))) ==> (r matches Err(e) && e@
            == ERR_SUFFIX_SEPARATORS@),
        (path_file_stem(source@) is Some && path_extension(source@) is Some && !has_path_separator(
            trim(filename_suffix@),
        ) && (quality_suffix matches Some(q) && !(1 <= q <= 100))) ==> (r matches Err(e) && e@
            == ERR_QUALITY_SUFFIX@),
        (path_file_stem(source@) is Some && path_extension(source@) is Some && !has_path_separator(
            trim(filename_suffix@),
        ) && (quality_suffix matches Some(q) ==> 1 <= q <= 100)) ==> (r matches Ok(search) && search.wf()
            && search@ == (
            path_file_stem(source@)->0 + trim(filename_suffix@) + quality_part(quality_suffix),
            path_extension(source@)->0,
            None::<u32>,
        )),
{
    let source_stem = match file_stem(source) {
        Some(s) => s,
        None => {
            return Err(message(ERR_STEM_NOT_UTF8));
        },
    };
    let source_extension = match extension(source) {
        Some(e) => e,
        None => {
            return Err(message(ERR_NO_EXTENSION));
        },
    };
    let suffix = match normalize_filename_suffix(filename_suffix) {
        Ok(s) => s,
        Err(e) => {
            return Err(e);
        },
    };
    let mut stem = source_stem;
    push_str(&mut stem, suffix.as_str());
    if let Some(value) = quality_suffix {
        if !(1 <= value && value <= 100) {
            return Err(message(ERR_QUALITY_SUFFIX));
        }
        push_char(&mut stem, '-');
        push_decimal(&mut stem, value as u64);
    }
    proof {
        assert(suffix@ == trim(filename_suffix@));
        assert(stem@ =~= path_file_stem(source@)->0 + trim(filename_suffix@) + quality_part(
            quality_suffix,
        ));
    }
    Ok(DestinationSearch { stem, extension: source_extension, counter: None })
}

/// Names for distinct counter states differ: the search never proposes a
/// name twice.
pub proof fn lemma_destination_names_distinct(
    stem: Seq<char>,
    ext: Seq<char>,
    a: Option<u32>,
    b: Option<u32>,
)
    requires
        a != b,
    ensures
        destination_name(stem, ext, a) != destination_name(stem, ext, b),
{
    match (a, b) {
        (None, Some(n)) => {
            lemma_decimal_digits(n as nat);
            assert(destination_name(stem, ext, a).len() != destination_name(stem, ext, b).len());
        },
        (Some(n), None) => {
            lemma_decimal_digits(n as nat);
            assert(destination_name(stem, ext, a).len() != destination_name(stem, ext, b).len());
        },
        (Some(m), Some(n)) => {
            let dm = decimal(m as nat);
            let dn = decimal(n as nat);
            let x = destination_name(stem, ext, a);
            let y = destination_name(stem, ext, b);
            if dm.len() == dn.len() {
                if dm == dn {
                    lemma_decimal_injective(m as nat, n as nat);
                }
                assert(!(dm =~= dn));
                let k = choose|k: int| 0 <= k < dm.len() && dm[k] != dn[k];
                let p = stem.len() + 1;
                assert(x[p + k] == dm[k]);
                assert(y[p + k] == dn[k]);
            } else {
                assert(x.len() != y.len());
            }
        },
        (None, None) => {},
    }
}

/// Each `advance` moves to a name that was not proposed before: the counter
/// only grows, and distinct counters give distinct names.
pub proof fn lemma_advance_never_repeats(stem: Seq<char>, ext: Seq<char>, before: Option<u32>, after: Option<u32>, earlier: Option<u32>)
    requires
        before matches Some(n) ==> n >= 2,
        earlier matches Some(n) ==> n >= 2,
        // `after` is what `advance` made of `before`
        match before {
            None => after == Some(2u32),
            Some(n) => n < u32::MAX && after == Some((n + 1) as u32),
        },
        // `earlier` was proposed no later than `before`
        match (earlier, before) {
            (None, _) => true,
            (Some(_), None) => false,
            (Some(e), Some(n)) => e <= n,
        },
    ensures
        destination_name(stem, ext, after) != destination_name(stem, ext, earlier),
{
    lemma_destination_names_distinct(stem, ext, after, earlier);
}

// ---------------------------------------------------------------------------
// The export rule
// ---------------------------------------------------------------------------

/// Whether an export must be skipped because a JPEG output would not be
/// smaller than its source: larger in bytes, or the same size at the same
/// dimensions.
pub open spec fn skip_non_smaller_jpeg(
    source_suffix: Seq<char>,
    original_bytes: u64,
    encoded_bytes: u64,
    same_dimensions: bool,
) -> bool {
    is_jpeg_suffix(normalized_suffix(source_suffix)) && (encoded_bytes > original_bytes || (
    same_dimensions && encoded_bytes == original_bytes))
}

/// Whether a JPEG export must be skipped so that the output is never larger
/// than the source.
pub fn should_skip_non_smaller_jpeg_export(
    source_suffix: &str,
    original_bytes: u64,
    encoded_bytes: u64,
    original_width: u32,
    original_height: u32,
    output_width: u32,
    output_height: u32,
) -> (r: bool)
    ensures
        r == skip_non_smaller_jpeg(
            source_suffix@,
            original_bytes,
            encoded_bytes,
            original_width == output_width && original_height == output_height,
        ),
        encoded_bytes < original_bytes ==> !r,
        encoded_bytes > original_bytes ==> (r <==> is_jpeg_suffix(
            normalized_suffix(source_suffix@),
        )),
        encoded_bytes == original_bytes ==> (r <==> (is_jpeg_suffix(
            normalized_suffix(source_suffix@),
        ) && original_width == output_width && original_height == output_height)),
{
    let suffix = normalize_suffix_chars(source_suffix);
    let is_jpeg = is_jpeg_chars(&suffix);
    let same_dimensions = original_width == output_width && original_height == output_height;
    is_jpeg && (encoded_bytes > original_bytes || (same_dimensions && encoded_bytes
        == original_bytes))
}

/// Only a JPEG source is ever skipped, and only when its re-encoding is not
/// smaller: an encoding strictly smaller than the source is always exported,
/// whatever the dimensions; a larger one of a JPEG is always skipped; one of
/// equal size is skipped exactly when the dimensions did not change.
pub proof fn lemma_skip_only_when_not_smaller(
    source_suffix: Seq<char>,
    original_bytes: u64,
    encoded_bytes: u64,
    same_dimensions: bool,
)
    ensures
        encoded_bytes < original_bytes ==> !skip_non_smaller_jpeg(
            source_suffix,
            original_bytes,
            encoded_bytes,
            same_dimensions,
        ),
        !is_jpeg_suffix(normalized_suffix(source_suffix)) ==> !skip_non_smaller_jpeg(
            source_suffix,
            original_bytes,
            encoded_bytes,
            same_dimensions,
        ),
        (is_jpeg_suffix(normalized_suffix(source_suffix)) && encoded_bytes > original_bytes)
            ==> skip_non_smaller_jpeg(source_suffix, original_bytes, encoded_bytes, same_dimensions),
        (is_jpeg_suffix(normalized_suffix(source_suffix)) && encoded_bytes == original_bytes)
            ==> (skip_non_smaller_jpeg(source_suffix, original_bytes, encoded_bytes, same_dimensions)
            <==> same_dimensions),
{
}

/// A JPEG that is exported (not skipped) is never larger than its source.
pub proof fn lemma_exported_jpeg_not_larger(
    source_suffix: Seq<char>,
    original_bytes: u64,
    encoded_bytes: u64,
    same_dimensions: bool,
)
    requires
        is_jpeg_suffix(normalized_suffix(source_suffix)),
        !skip_non_smaller_jpeg(source_suffix, original_bytes, encoded_bytes, same_dimensions),
    ensures
        encoded_bytes <= original_bytes,
        same_dimensions ==> encoded_bytes < original_bytes,
{
}


// ---------------------------------------------------------------------------
// Byte sizes for display
// ---------------------------------------------------------------------------

/// How many low bits of `v` a 64-bit float (53-bit significand) cannot keep.
pub open spec fn float_dropped_bits(v: nat) -> nat
    decreases v,
{
    if v < 0x20_0000_0000_0000 {
        0
    } else {
        1 + float_dropped_bits(v / 2)
    }
}

/// The value of `v as f64`: `v` rounded to 53 significant bits, ties to even.
pub open spec fn nearest_float(v: nat) -> nat {
    let d = pow2(float_dropped_bits(v));
    round_half_even(v, d) * d
}

/// The unit that `human_bytes` shows `v` in: 0 = B, 1 = KB, 2 = MB, 3 = GB.
pub open spec fn byte_unit(v: nat) -> nat {
    if v < 1024 {
        0
    } else if v < 0x10_0000 {
        1
    } else if v < 0x4000_0000 {
        2
    } else {
        3
    }
}

pub open spec fn byte_unit_name(unit: nat) -> Seq<char> {
    if unit == 1 {
        seq!['K', 'B']
    } else if unit == 2 {
        seq!['M', 'B']
    } else {
        seq!['G', 'B']
    }
}

/// `v` in its unit, in tenths, rounded half to even (as `{:.1}` formats the
/// float `v as f64 / 1024^unit`).
pub open spec fn byte_tenths(v: nat) -> nat {
    round_half_even(nearest_float(v) * 10, pow2(10 * byte_unit(v)))
}

/// The display text of a byte count: `N B` below one KB, otherwise the
/// value in KB, MB or GB with one decimal.
pub open spec fn human_bytes_text(v: nat) -> Seq<char> {
    if v < 1024 {
        decimal(v) + seq![' ', 'B']
    } else {
        let t = byte_tenths(v);
        decimal(t / 10) + seq!['.', digit_char(t % 10), ' '] + byte_unit_name(byte_unit(v))
    }
}

/// Splits off the bits of `value` that a 64-bit float drops: returns
/// `2^float_dropped_bits(value)`.
fn float_drop_divisor(value: u64) -> (d: u128)
    ensures
        d == pow2(float_dropped_bits(value as nat)),
        1 <= d <= 0x1000,
{
    let mut t: u64 = value;
    let mut d: u128 = 1;
    let ghost mut e: nat = 0;
    proof {
        lemma2_to64();
    }
    while t >= 0x20_0000_0000_0000
        invariant
            d == pow2(e),
            1 <= d <= 0x1000,
            t == value as nat / d as nat,
            float_dropped_bits(value as nat) == e + float_dropped_bits(t as nat),
        decreases t,
    {
        proof {
            lemma_pow2_unfold(e + 1);
            lemma_div_denominator(value as int, d as int, 2);
            assert(value as nat >= d * 0x20_0000_0000_0000) by (nonlinear_arith)
                requires
                    t == value as nat / d as nat,
                    t >= 0x20_0000_0000_0000,
                    d >= 1,
            {
                lemma_fundamental_div_mod(value as int, d as int);
            }
            assert(d < 0x1000) by (nonlinear_arith)
                requires
                    value as nat >= d * 0x20_0000_0000_0000,
                    value <= u64::MAX,
            ;
        }
        t = t / 2;
        d = d * 2;
        proof {
            e = e + 1;
        }
    }
    proof {
        assert(float_dropped_bits(t as nat) == 0);
    }
    d
}

fn unit_divisor(unit: u64) -> (d: u128)
    requires
        1 <= unit <= 3,
    ensures
        d == pow2(10 * unit as nat),
        1024 <= d <= 0x4000_0000,
{
    proof {
        lemma2_to64();
    }
    if unit == 1 {
        1024
    } else if unit == 2 {
        0x10_0000
    } else {
        0x4000_0000
    }
}

/// A byte count as short display text, such as `512 B` or `1.0 KB`.
pub fn human_bytes(value: u64) -> (s: String)
    ensures
        s@ == human_bytes_text(value as nat),
{
    let mut s = String::new();
    if value < 1024 {
        push_decimal(&mut s, value);
        push_char(&mut s, ' ');
        push_char(&mut s, 'B');
        assert(s@ =~= human_bytes_text(value as nat));
        return s;
    }
    let unit: u64 = if value < 0x10_0000 {
        1
    } else if value < 0x4000_0000 {
        2
    } else {
        3
    };
    let drop = float_drop_divisor(value);
    let kept = round_ratio_half_even(value as u128, drop);
    proof {
        lemma_round_half_even_bounds(value as nat, drop as nat);
        vstd::arithmetic::div_mod::lemma_div_is_ordered_by_denominator(value as int, 1, drop as int);
        assert(kept * drop <= value + drop) by (nonlinear_arith)
            requires
                kept == value as nat / drop as nat || kept == value as nat / drop as nat + 1,
                drop >= 1,
        {
            lemma_fundamental_div_mod(value as int, drop as int);
        }
    }
    let float_value: u128 = kept * drop;
    let divisor = unit_divisor(unit);
    let tenths = round_ratio_half_even(float_value * 10, divisor);
    proof {
        lemma_round_half_even_bounds((float_value * 10) as nat, divisor as nat);
        vstd::arithmetic::div_mod::lemma_div_is_ordered_by_denominator(
            (float_value * 10) as int,
            1024,
            divisor as int,
        );
        assert((float_value * 10) as int / 1024 <= 0x10_0000_0000_0000_0000int * 10 / 1024) by {
            vstd::arithmetic::div_mod::lemma_div_is_ordered(
                (float_value * 10) as int,
                0x10_0000_0000_0000_0000int * 10,
                1024,
            );
        }
    }
    let whole: u64 = (tenths / 10) as u64;
    let fraction: u64 = (tenths % 10) as u64;
    push_decimal(&mut s, whole);
    push_char(&mut s, '.');
    push_decimal(&mut s, fraction);
    push_char(&mut s, ' ');
    if unit == 1 {
        push_char(&mut s, 'K');
    } else if unit == 2 {
        push_char(&mut s, 'M');
    } else {
        push_char(&mut s, 'G');
    }
    push_char(&mut s, 'B');
    proof {
        assert(decimal(fraction as nat) == seq![digit_char(fraction as nat)]);
        assert(byte_unit(value as nat) == unit);
        assert(s@ =~= human_bytes_text(value as nat));
    }
    s
}


// ---------------------------------------------------------------------------
// Laws of the dimension and quality rules
// ---------------------------------------------------------------------------

/// Resizing never upscales: the output is no wider than requested, no wider
/// and no taller than the original, at least one pixel tall, and an image
/// already narrower than the request keeps its size.
pub proof fn lemma_dimensions_never_upscale(
    original_width: u32,
    original_height: u32,
    requested_width: u32,
)
    requires
        original_width > 0,
        original_height > 0,
        requested_width > 0,
    ensures
        ({
            let w = target_width(original_width, requested_width);
            let h = proportional_height(original_width, original_height, w);
            &&& w <= original_width
            &&& w <= requested_width
            &&& 1 <= h <= original_height
            &&& requested_width >= original_width ==> w == original_width && h
                == original_height
        }),
{
    let w = target_width(original_width, requested_width);
    if w != original_width {
        let n = (original_height * w) as nat;
        let d = original_width as nat;
        lemma_round_half_even_bounds(n, d);
        assert(n < original_height * d) by (nonlinear_arith)
            requires
                n == original_height * w,
                w < d,
                original_height > 0,
        ;
        assert(n / d < original_height) by {
            lemma_fundamental_div_mod(n as int, d as int);
            assert(n / d < original_height) by (nonlinear_arith)
                requires
                    n == d * (n / d) + n % d,
                    n % d >= 0,
                    n < original_height * d,
                    d > 0,
            ;
        }
    }
}

/// Resizing preserves the aspect ratio up to rounding: the output height is
/// within half a pixel of the exact proportional height. (When the exact
/// height is below half a pixel, the height is raised to one pixel instead.)
pub proof fn lemma_dimensions_keep_aspect_ratio(
    original_width: u32,
    original_height: u32,
    requested_width: u32,
)
    requires
        original_width > 0,
        original_height > 0,
        requested_width > 0,
        2 * original_height * target_width(original_width, requested_width) >= original_width,
    ensures
        ({
            let w = target_width(original_width, requested_width);
            let h = proportional_height(original_width, original_height, w);
            &&& 2 * (h * original_width - original_height * w) <= original_width
            &&& 2 * (original_height * w - h * original_width) <= original_width
        }),
{
    let w = target_width(original_width, requested_width);
    if w != original_width {
        let n = (original_height * w) as nat;
        let d = original_width as nat;
        lemma_round_half_even_bounds(n, d);
        let r = round_half_even(n, d);
        if r < 1 {
            assert(r == 0);
            assert(r * d == 0) by (nonlinear_arith)
                requires
                    r == 0,
            ;
            assert(2 * (n - r * d) <= d);
            assert(2 * n <= d);
            assert(2 * n >= d) by (nonlinear_arith)
                requires
                    2 * original_height * w >= d,
                    n == original_height * w,
            ;
        }
    } else {
        assert(original_height * w == w * original_height) by (nonlinear_arith);
    }
}

proof fn lemma_png_window_bounds(i: int, q: int)
    requires
        0 <= i <= 3,
        png_anchor(i + 1).0 <= q <= png_anchor(i).0,
    ensures
        png_anchor(i).1 <= png_window_value(i, q) <= png_anchor(i + 1).1,
{
    let high = png_anchor(i);
    let low = png_anchor(i + 1);
    let span = (high.0 - low.0) as nat;
    let delta = (low.1 - high.1) as nat;
    let n = ((high.0 - q) * (low.1 - high.1)) as nat;
    assert(n <= delta * span) by (nonlinear_arith)
        requires
            n == (high.0 - q) * (low.1 - high.1),
            0 <= high.0 - q <= span,
            delta == low.1 - high.1,
            delta >= 0,
    ;
    lemma_round_half_even_monotone(n, delta * span, span);
    lemma_round_half_even_exact(delta, span);
}

proof fn lemma_png_window_monotone(i: int, a: int, b: int)
    requires
        0 <= i <= 3,
        png_anchor(i + 1).0 <= a <= b <= png_anchor(i).0,
    ensures
        png_window_value(i, a) >= png_window_value(i, b),
{
    let high = png_anchor(i);
    let low = png_anchor(i + 1);
    let span = (high.0 - low.0) as nat;
    let na = ((high.0 - a) * (low.1 - high.1)) as nat;
    let nb = ((high.0 - b) * (low.1 - high.1)) as nat;
    assert(nb <= na) by (nonlinear_arith)
        requires
            na == (high.0 - a) * (low.1 - high.1),
            nb == (high.0 - b) * (low.1 - high.1),
            a <= b,
            low.1 - high.1 >= 0,
    ;
    lemma_round_half_even_monotone(nb, na, span);
}

/// The PNG mapping hits its anchor points exactly.
pub proof fn lemma_png_compression_anchors()
    ensures
        png_compression(100) == 0,
        png_compression(92) == 40,
        png_compression(85) == 65,
        png_compression(75) == 90,
        png_compression(1) == 100,
{
    assert(round_half_even(0, 8) == 0);
    assert(png_anchor(0) == (100int, 0int));
    assert(png_anchor(1) == (92int, 40int));
    assert(((100 - 100) * (40 - 0)) as nat == 0);
    assert(png_window_value(0, 100) == 0);
    assert(round_half_even(320, 8) == 40);
    assert(((100 - 92) * (40 - 0)) as nat == 320);
    assert(png_window_value(0, 92) == 40);
    assert(png_anchor(2) == (85int, 65int));
    assert(png_anchor(3) == (75int, 90int));
    assert(png_anchor(4) == (1int, 100int));
    assert(round_half_even(175, 7) == 25);
    assert(((92 - 85) * (65 - 40)) as nat == 175);
    assert(png_window_value(1, 85) == 65);
    assert(round_half_even(250, 10) == 25);
    assert(((85 - 75) * (90 - 65)) as nat == 250);
    assert(png_window_value(2, 75) == 90);
    assert(round_half_even(740, 74) == 10);
    assert(((75 - 1) * (100 - 90)) as nat == 740);
    assert(png_window_value(3, 1) == 100);
}

/// Higher quality never means more PNG compression effort, and the effort
/// stays within 0..=100.
pub proof fn lemma_png_compression_monotone(a: int, b: int)
    requires
        1 <= a <= b <= 100,
    ensures
        png_compression(a) >= png_compression(b),
        0 <= png_compression(a) <= 100,
{
    let wa = png_window(a);
    let wb = png_window(b);
    lemma_png_window_bounds(wa, a);
    lemma_png_window_bounds(wb, b);
    if wa == wb {
        lemma_png_window_monotone(wa, a, b);
    }
}

/// A custom quality equal to a preset's quality gives that preset's encoder
/// settings, for every output format.
pub proof fn lemma_custom_quality_matches_presets(preset: QualityPreset, suffix: Seq<char>)
    requires
        preset != QualityPreset::Custom,
    ensures
        ({
            let q = preset_quality(preset, None)->0;
            encoding_for(QualityPreset::Custom, q, suffix) == encoding_for(preset, q, suffix)
        }),
{
    lemma_png_compression_anchors();
}

} // verus!
