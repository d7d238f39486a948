//! Decoded images as plain pixel buffers, and the byte-level conversions
//! between row layouts and pixel formats that decoding, GPU upload and GPU
//! readback need.
use vstd::prelude::*;

verus! {

/// The pixel layouts that decoded images are normalized to.
#[derive(Debug, Clone, Copy, PartialEq, Eq, Structural)]
pub enum PixelFormat {
    Rgb8,
    Rgba8,
}

pub open spec fn format_channels(format: PixelFormat) -> nat {
    match format {
        PixelFormat::Rgb8 => 3,
        PixelFormat::Rgba8 => 4,
    }
}

/// A decoded image: tightly packed rows of 8-bit RGB or RGBA pixels.
#[derive(Debug, Clone)]
pub struct RawImage {
    pub width: u32,
    pub height: u32,
    pub format: PixelFormat,
    pub pixels: Vec<u8>,
}

impl RawImage {
    /// Bytes per pixel.
    pub fn channels(&self) -> (r: usize)
        ensures
            r == format_channels(self.format),
    {
        match self.format {
            PixelFormat::Rgb8 => 3,
            PixelFormat::Rgba8 => 4,
        }
    }

    /// Bytes per row.
    pub fn stride(&self) -> (r: u32)
        requires
            self.width * format_channels(self.format) <= u32::MAX,
        ensures
            r == self.width * format_channels(self.format),
    {
        let channels = self.channels() as u32;
        self.width * channels
    }
}

// ---------------------------------------------------------------------------
// Row packing
// ---------------------------------------------------------------------------

/// The first `rows` rows of `row_bytes` bytes each, taken every `stride`
/// bytes of `source`, one after the other.
pub open spec fn packed_rows(source: Seq<u8>, row_bytes: nat, stride: nat, rows: nat) -> Seq<u8>
    decreases rows,
{
    if rows == 0 {
        Seq::empty()
    } else {
        let start = (rows - 1) * stride;
        packed_rows(source, row_bytes, stride, (rows - 1) as nat) + source.subrange(
            start as int,
            start + row_bytes,
        )
    }
}

/// Whether every one of `rows` rows lies within `source`.
pub open spec fn rows_fit(len: nat, row_bytes: nat, stride: nat, rows: nat) -> bool {
    rows == 0 || (rows - 1) * stride + row_bytes <= len
}

/// Copies `rows` rows of `row_bytes` bytes each out of a buffer whose rows
/// start every `stride` bytes, dropping the padding between rows. `None` when
/// a row runs past the end of the buffer.
pub fn pack_rows(source: &[u8], row_bytes: usize, stride: usize, rows: usize) -> (r: Option<
    Vec<u8>,
>)
    requires
        rows * stride + row_bytes <= usize::MAX,
    ensures
        rows_fit(source@.len(), row_bytes as nat, stride as nat, rows as nat) ==> (r matches Some(v)
            && v@ == packed_rows(source@, row_bytes as nat, stride as nat, rows as nat)),
        !rows_fit(source@.len(), row_bytes as nat, stride as nat, rows as nat) ==> r is None,
{
    let mut pixels: Vec<u8> = Vec::new();
    let mut row: usize = 0;
    while row < rows
        invariant
            row <= rows,
            rows * stride + row_bytes <= usize::MAX,
            pixels@ == packed_rows(source@, row_bytes as nat, stride as nat, row as nat),
            row > 0 ==> (row - 1) * stride + row_bytes <= source@.len(),
        decreases rows - row,
    {
        assert(row * stride <= rows * stride) by (nonlinear_arith)
            requires
                row <= rows,
        ;
        let start = row * stride;
        let end = start + row_bytes;
        if end > source.len() {
            proof {
                assert((rows - 1) * stride >= row * stride) by (nonlinear_arith)
                    requires
                        row < rows,
                ;
            }
            return None;
        }
        let ghost before = pixels@;
        let mut i = start;
        while i < end
            invariant
                start <= i <= end <= source@.len(),
                pixels@ == before + source@.subrange(start as int, i as int),
            decreases end - i,
        {
            pixels.push(source[i]);
            i = i + 1;
            assert(pixels@ =~= before + source@.subrange(start as int, i as int));
        }
        row = row + 1;
        assert(pixels@ == packed_rows(source@, row_bytes as nat, stride as nat, row as nat));
    }
    Some(pixels)
}

// ---------------------------------------------------------------------------
// Pixel formats
// ---------------------------------------------------------------------------

/// The first `pixels` RGB pixels of `rgb` with an opaque alpha byte added.
pub open spec fn rgb_to_rgba(rgb: Seq<u8>, pixels: nat) -> Seq<u8>
    decreases pixels,
{
    if pixels == 0 {
        Seq::empty()
    } else {
        let p = (pixels - 1) * 3;
        rgb_to_rgba(rgb, (pixels - 1) as nat) + seq![rgb[p], rgb[p + 1], rgb[p + 2], 255u8]
    }
}

/// The first `pixels` RGBA pixels of `rgba` without their alpha byte.
pub open spec fn rgba_to_rgb(rgba: Seq<u8>, pixels: nat) -> Seq<u8>
    decreases pixels,
{
    if pixels == 0 {
        Seq::empty()
    } else {
        let p = (pixels - 1) * 4;
        rgba_to_rgb(rgba, (pixels - 1) as nat) + seq![rgba[p], rgba[p + 1], rgba[p + 2]]
    }
}

/// The pixels of an image as RGBA: unchanged for RGBA, with an opaque alpha
/// byte added to each whole RGB pixel otherwise.
pub open spec fn rgba_pixels(pixels: Seq<u8>, format: PixelFormat) -> Seq<u8> {
    match format {
        PixelFormat::Rgba8 => pixels,
        PixelFormat::Rgb8 => rgb_to_rgba(pixels, pixels.len() / 3),
    }
}

/// RGBA pixels converted to the given format: unchanged for RGBA, the alpha
/// byte of each whole pixel dropped for RGB.
pub open spec fn pixels_in_format(rgba: Seq<u8>, format: PixelFormat) -> Seq<u8> {
    match format {
        PixelFormat::Rgba8 => rgba,
        PixelFormat::Rgb8 => rgba_to_rgb(rgba, rgba.len() / 4),
    }
}

proof fn lemma_rgb_to_rgba_len(rgb: Seq<u8>, pixels: nat)
    ensures
        rgb_to_rgba(rgb, pixels).len() == 4 * pixels,
    decreases pixels,
{
    if pixels > 0 {
        lemma_rgb_to_rgba_len(rgb, (pixels - 1) as nat);
    }
}

proof fn lemma_rgba_to_rgb_len(rgba: Seq<u8>, pixels: nat)
    ensures
        rgba_to_rgb(rgba, pixels).len() == 3 * pixels,
    decreases pixels,
{
    if pixels > 0 {
        lemma_rgba_to_rgb_len(rgba, (pixels - 1) as nat);
    }
}

fn copy_bytes(bytes: &[u8]) -> (r: Vec<u8>)
    ensures
        r@ == bytes@,
{
    let mut r: Vec<u8> = Vec::new();
    let mut i: usize = 0;
    while i < bytes.len()
        invariant
            i <= bytes@.len(),
            r@ == bytes@.subrange(0, i as int),
        decreases bytes.len() - i,
    {
        r.push(bytes[i]);
        i = i + 1;
        assert(r@ =~= bytes@.subrange(0, i as int));
    }
    assert(bytes@.subrange(0, bytes@.len() as int) =~= bytes@);
    r
}

/// The image's pixels as RGBA, ready for a GPU texture.
pub fn to_rgba8(source: &RawImage) -> (r: Vec<u8>)
    ensures
        r@ == rgba_pixels(source.pixels@, source.format),
{
    match source.format {
        PixelFormat::Rgba8 => source.pixels.clone(),
        PixelFormat::Rgb8 => {
            let n = source.pixels.len();
            let mut rgba: Vec<u8> = Vec::new();
            let mut p: usize = 0;
            let ghost mut k: nat = 0;
            while n - p >= 3
                invariant
                    n == source.pixels@.len(),
                    p == 3 * k,
                    p <= n,
                    rgba@ == rgb_to_rgba(source.pixels@, k),
                decreases n - p,
            {
                rgba.push(source.pixels[p]);
                rgba.push(source.pixels[p + 1]);
                rgba.push(source.pixels[p + 2]);
                rgba.push(255);
                p = p + 3;
                proof {
                    k = k + 1;
                }
                assert(rgba@ =~= rgb_to_rgba(source.pixels@, k));
            }
            proof {
                vstd::arithmetic::div_mod::lemma_fundamental_div_mod_converse(
                    n as int,
                    3,
                    k as int,
                    (n - p) as int,
                );
            }
            rgba
        },
    }
}

/// RGBA pixels (as read back from a GPU texture) in the given format.
pub fn from_rgba8(rgba: &[u8], format: PixelFormat) -> (r: Vec<u8>)
    ensures
        r@ == pixels_in_format(rgba@, format),
{
    match format {
        PixelFormat::Rgba8 => copy_bytes(rgba),
        PixelFormat::Rgb8 => {
            let n = rgba.len();
            let mut rgb: Vec<u8> = Vec::new();
            let mut p: usize = 0;
            let ghost mut k: nat = 0;
            while n - p >= 4
                invariant
                    n == rgba@.len(),
                    p == 4 * k,
                    p <= n,
                    rgb@ == rgba_to_rgb(rgba@, k),
                decreases n - p,
            {
                rgb.push(rgba[p]);
                rgb.push(rgba[p + 1]);
                rgb.push(rgba[p + 2]);
                p = p + 4;
                proof {
                    k = k + 1;
                }
                assert(rgb@ =~= rgba_to_rgb(rgba@, k));
            }
            proof {
                vstd::arithmetic::div_mod::lemma_fundamental_div_mod_converse(
                    n as int,
                    4,
                    k as int,
                    (n - p) as int,
                );
            }
            rgb
        },
    }
}

/// The first `k` pixels of an RGB-to-RGBA conversion do not depend on how
/// many more pixels are converted.
proof fn lemma_rgb_to_rgba_prefix(rgb: Seq<u8>, k: nat, n: nat)
    requires
        k <= n,
    ensures
        rgb_to_rgba(rgb, n).subrange(0, 4 * k as int) == rgb_to_rgba(rgb, k),
    decreases n,
{
    lemma_rgb_to_rgba_len(rgb, n);
    lemma_rgb_to_rgba_len(rgb, k);
    if k < n {
        lemma_rgb_to_rgba_prefix(rgb, k, (n - 1) as nat);
        lemma_rgb_to_rgba_len(rgb, (n - 1) as nat);
        assert(rgb_to_rgba(rgb, n).subrange(0, 4 * k as int) =~= rgb_to_rgba(
            rgb,
            (n - 1) as nat,
        ).subrange(0, 4 * k as int));
    } else {
        assert(rgb_to_rgba(rgb, n).subrange(0, 4 * k as int) =~= rgb_to_rgba(rgb, k));
    }
}

/// Dropping the alpha byte again restores the RGB pixels.
proof fn lemma_rgb_round_trip(rgb: Seq<u8>, k: nat, n: nat)
    requires
        k <= n,
        3 * n <= rgb.len(),
    ensures
        rgba_to_rgb(rgb_to_rgba(rgb, n), k) == rgb.subrange(0, 3 * k as int),
    decreases k,
{
    if k > 0 {
        lemma_rgb_round_trip(rgb, (k - 1) as nat, n);
        lemma_rgb_to_rgba_prefix(rgb, k, n);
        lemma_rgb_to_rgba_len(rgb, k);
        lemma_rgb_to_rgba_len(rgb, n);
        let t = rgb_to_rgba(rgb, n);
        let p = (k - 1) * 4;
        assert(t[p] == rgb_to_rgba(rgb, k)[p]);
        assert(t[p + 1] == rgb_to_rgba(rgb, k)[p + 1]);
        assert(t[p + 2] == rgb_to_rgba(rgb, k)[p + 2]);
        assert(rgba_to_rgb(t, k) =~= rgb.subrange(0, 3 * k as int));
    } else {
        assert(rgba_to_rgb(rgb_to_rgba(rgb, n), 0) =~= rgb.subrange(0, 0));
    }
}

/// Converting an image's pixels to RGBA and back to the image's format
/// restores them: what the GPU path uploads and reads back is packed by
/// inverse conversions.
pub proof fn lemma_rgba_round_trip(pixels: Seq<u8>, format: PixelFormat)
    requires
        pixels.len() % format_channels(format) == 0,
    ensures
        pixels_in_format(rgba_pixels(pixels, format), format) == pixels,
{
    match format {
        PixelFormat::Rgba8 => {},
        PixelFormat::Rgb8 => {
            let n = pixels.len() / 3;
            lemma_rgb_to_rgba_len(pixels, n);
            assert(rgb_to_rgba(pixels, n).len() / 4 == n);
            lemma_rgb_round_trip(pixels, n, n);
            assert(pixels.subrange(0, 3 * n as int) =~= pixels);
        },
    }
}

// ---------------------------------------------------------------------------
// GPU resize decisions
// ---------------------------------------------------------------------------

/// Source images smaller than this (in pixels) are resized on the CPU.
pub const GPU_MIN_SOURCE_PIXELS: u64 = 12_000_000;

/// Whether a resize of `source` to `width` × `height` goes to the GPU: only
/// when a GPU is available (`max_texture_dimension` is its texture size
/// limit), the source is large enough, and every side fits in a texture.
pub fn should_use_gpu(
    source: &RawImage,
    width: u32,
    height: u32,
    max_texture_dimension: Option<u32>,
) -> (r: bool)
    ensures
        r == match max_texture_dimension {
            None => false,
            Some(max) => source.width * source.height >= GPU_MIN_SOURCE_PIXELS && source.width
                <= max && source.height <= max && width <= max && height <= max,
        },
{
    let max_dimension = match max_texture_dimension {
        Some(m) => m,
        None => {
            return false;
        },
    };
    assert((source.width as u64) * (source.height as u64) <= u64::MAX) by (nonlinear_arith)
        requires
            source.width <= u32::MAX,
            source.height <= u32::MAX,
    ;
    let source_pixels = (source.width as u64) * (source.height as u64);
    source_pixels >= GPU_MIN_SOURCE_PIXELS && source.width <= max_dimension && source.height
        <= max_dimension && width <= max_dimension && height <= max_dimension
}

/// `value` rounded up to a multiple of `alignment`.
pub fn align_to(value: u32, alignment: u32) -> (r: u32)
    requires
        alignment > 0,
        (value + alignment - 1) / (alignment as int) * (alignment as int) <= u32::MAX,
    ensures
        r == (value + alignment - 1) / (alignment as int) * (alignment as int),
        r % alignment == 0,
        value <= r < value + alignment,
{
    let q = value / alignment;
    let rem = value % alignment;
    proof {
        vstd::arithmetic::div_mod::lemma_fundamental_div_mod(value as int, alignment as int);
        assert(q * alignment == alignment * q) by (nonlinear_arith);
        if rem == 0 {
            vstd::arithmetic::div_mod::lemma_fundamental_div_mod_converse(
                (value + alignment - 1) as int,
                alignment as int,
                q as int,
                (alignment - 1) as int,
            );
        } else {
            assert((q + 1) * alignment == q * alignment + alignment) by (nonlinear_arith);
            vstd::arithmetic::div_mod::lemma_fundamental_div_mod_converse(
                (value + alignment - 1) as int,
                alignment as int,
                (q + 1) as int,
                (rem - 1) as int,
            );
            assert(q + 1 <= (q + 1) * alignment) by (nonlinear_arith)
                requires
                    alignment >= 1,
                    q >= 0,
            ;
        }
    }
    let blocks = if rem == 0 {
        q
    } else {
        q + 1
    };
    proof {
        assert((blocks * alignment) as int % alignment as int == 0) by {
            vstd::arithmetic::div_mod::lemma_mod_multiples_basic(blocks as int, alignment as int);
        }
        assert(value <= blocks * alignment < value + alignment) by (nonlinear_arith)
            requires
                value == alignment * q + rem,
                0 <= rem < alignment,
                rem == 0 ==> blocks == q,
                rem != 0 ==> blocks == q + 1,
        ;
    }
    blocks * alignment
}

} // verus!
