//! 32×32 grayscale frames: mirroring, BT.601 luma of RGB pixels, packing of
//! strided rows, and the reduction of a decoded RGB frame to 32×32 gray.

use fast_image_resize::images::Image;
use fast_image_resize::{PixelType, ResizeAlg, ResizeOptions, Resizer};
use vstd::prelude::*;

verus! {

/// Number of bytes of a 32×32 grayscale frame.
pub const GRAY_SIZE: usize = 1024;

/// Produce a horizontally-flipped copy of a 32×32 gray frame: row `r`, column
/// `c` of the result is row `r`, column `31 - c` of the input.
pub fn flip_gray_horizontal(gray: &[u8; 1024]) -> (flipped: Box<[u8; 1024]>)
    ensures
        flipped@.len() == 1024,
        forall|r: int, c: int|
            0 <= r < 32 && 0 <= c < 32 ==> #[trigger] flipped@[r * 32 + c] == gray@[r * 32 + (31
                - c)],
{
    let mut out = [0u8; 1024];
    let mut row: usize = 0;
    while row < 32
        invariant
            row <= 32,
            out@.len() == 1024,
            gray@.len() == 1024,
            forall|r: int, c: int|
                0 <= r < row && 0 <= c < 32 ==> #[trigger] out@[r * 32 + c] == gray@[r * 32 + (31
                    - c)],
        decreases 32 - row,
    {
        let mut col: usize = 0;
        while col < 32
            invariant
                row < 32,
                col <= 32,
                out@.len() == 1024,
                gray@.len() == 1024,
                forall|r: int, c: int|
                    0 <= r < row && 0 <= c < 32 ==> #[trigger] out@[r * 32 + c] == gray@[r * 32 + (
                    31 - c)],
                forall|c: int|
                    0 <= c < col ==> #[trigger] out@[row * 32 + c] == gray@[row * 32 + (31 - c)],
            decreases 32 - col,
        {
            out[row * 32 + col] = gray[row * 32 + (31 - col)];
            col = col + 1;
        }
        row = row + 1;
    }
    Box::new(out)
}

/// Mirroring twice gives back the original frame.
pub proof fn lemma_flip_involution(g: Seq<u8>, f: Seq<u8>, ff: Seq<u8>)
    requires
        g.len() == 1024,
        f.len() == 1024,
        ff.len() == 1024,
        forall|r: int, c: int|
            0 <= r < 32 && 0 <= c < 32 ==> #[trigger] f[r * 32 + c] == g[r * 32 + (31 - c)],
        forall|r: int, c: int|
            0 <= r < 32 && 0 <= c < 32 ==> #[trigger] ff[r * 32 + c] == f[r * 32 + (31 - c)],
    ensures
        ff == g,
{
    assert forall|i: int| 0 <= i < 1024 implies ff[i] == g[i] by {
        let r = i / 32;
        let c = i % 32;
        assert(i == r * 32 + c);
        assert(ff[r * 32 + c] == f[r * 32 + (31 - c)]);
        assert(f[r * 32 + (31 - c)] == g[r * 32 + (31 - (31 - c))]);
    }
    assert(ff =~= g);
}

/// BT.601 luma of one RGB pixel, as the integer formula
/// `(299·r + 587·g + 114·b) / 1000`.
pub open spec fn luma(r: u8, g: u8, b: u8) -> int {
    (r as int * 299 + g as int * 587 + b as int * 114) / 1000
}

/// Convert a 32×32 packed RGB24 buffer (3072 bytes, row-major) to grayscale.
pub fn gray_from_rgb32(rgb: &[u8]) -> (gray: Box<[u8; 1024]>)
    requires
        rgb@.len() >= 3072,
    ensures
        gray@.len() == 1024,
        forall|i: int|
            0 <= i < 1024 ==> #[trigger] gray@[i] as int == luma(
                rgb@[3 * i],
                rgb@[3 * i + 1],
                rgb@[3 * i + 2],
            ),
{
    let mut out = [0u8; 1024];
    let mut i: usize = 0;
    while i < 1024
        invariant
            i <= 1024,
            out@.len() == 1024,
            rgb@.len() >= 3072,
            forall|k: int|
                0 <= k < i ==> #[trigger] out@[k] as int == luma(
                    rgb@[3 * k],
                    rgb@[3 * k + 1],
                    rgb@[3 * k + 2],
                ),
        decreases 1024 - i,
    {
        let r = rgb[i * 3] as u32;
        let g = rgb[i * 3 + 1] as u32;
        let b = rgb[i * 3 + 2] as u32;
        let y = (r * 299 + g * 587 + b * 114) / 1000;
        out[i] = y as u8;
        i = i + 1;
    }
    Box::new(out)
}

proof fn lemma_flat_index(r: int, c: int, n: int, m: int)
    requires
        0 <= r < n,
        0 <= c < m,
    ensures
        0 <= r * m + c < n * m,
{
    assert(0 <= r * m + c < n * m) by (nonlinear_arith)
        requires
            0 <= r < n,
            0 <= c < m,
    ;
}

/// Copy `rows` rows of `row_bytes` bytes each out of a buffer whose rows start
/// `stride` bytes apart, dropping the padding at the end of each row.
pub fn pack_rows(data: &[u8], stride: usize, row_bytes: usize, rows: usize) -> (packed: Vec<u8>)
    requires
        row_bytes <= stride,
        rows == 0 || (rows - 1) * stride + row_bytes <= data@.len(),
    ensures
        packed@.len() == rows * row_bytes,
        forall|r: int, c: int|
            0 <= r < rows && 0 <= c < row_bytes ==> #[trigger] packed@[r * row_bytes + c]
                == data@[r * stride + c],
{
    let mut packed: Vec<u8> = Vec::new();
    let total = data.len();
    let mut row: usize = 0;
    while row < rows
        invariant
            row <= rows,
            row_bytes <= stride,
            rows == 0 || (rows - 1) * stride + row_bytes <= data@.len(),
            total == data@.len(),
            packed@.len() == row * row_bytes,
            forall|r: int, c: int|
                0 <= r < row && 0 <= c < row_bytes ==> #[trigger] packed@[r * row_bytes + c]
                    == data@[r * stride + c],
        decreases rows - row,
    {
        let mut col: usize = 0;
        proof {
            assert(row * stride + row_bytes <= (rows - 1) * stride + row_bytes) by (nonlinear_arith)
                requires
                    row < rows,
            ;
            assert(row * row_bytes + row_bytes == (row + 1) * row_bytes) by (nonlinear_arith);
        }
        while col < row_bytes
            invariant
                row < rows,
                col <= row_bytes,
                row_bytes <= stride,
                total == data@.len(),
                row * stride + row_bytes <= data@.len(),
                packed@.len() == row * row_bytes + col,
                forall|r: int, c: int|
                    0 <= r < row && 0 <= c < row_bytes ==> #[trigger] packed@[r * row_bytes + c]
                        == data@[r * stride + c],
                forall|c: int|
                    0 <= c < col ==> #[trigger] packed@[row * row_bytes + c] == data@[row * stride
                        + c],
            decreases row_bytes - col,
        {
            proof {
                assert(row * stride + col < data@.len());
            }
            packed.push(data[row * stride + col]);
            proof {
                assert forall|r: int, c: int|
                    0 <= r < row && 0 <= c < row_bytes implies #[trigger] packed@[r * row_bytes + c]
                    == data@[r * stride + c] by {
                    lemma_flat_index(r, c, row as int, row_bytes as int);
                }
            }
            col = col + 1;
        }
        proof {
            assert forall|r: int, c: int|
                0 <= r < row + 1 && 0 <= c < row_bytes implies #[trigger] packed@[r * row_bytes
                + c] == data@[r * stride + c] by {
                if r < row {
                } else {
                    assert(r == row);
                }
            }
            assert(packed@.len() == (row + 1) * row_bytes);
        }
        row = row + 1;
    }
    packed
}

/// The rows of a strided buffer laid end to end.
pub open spec fn packed_seq(data: Seq<u8>, stride: int, row_bytes: int, rows: int) -> Seq<u8> {
    Seq::new((rows * row_bytes) as nat, |k: int| data[(k / row_bytes) * stride + k % row_bytes])
}

/// The grayscale 32×32 frame of a 32×32 RGB24 buffer.
pub open spec fn gray_of_rgb32(rgb: Seq<u8>) -> Seq<u8> {
    Seq::new(1024, |i: int| luma(rgb[3 * i], rgb[3 * i + 1], rgb[3 * i + 2]) as u8)
}

/// The 32×32 RGB24 image that nearest-neighbour sampling makes of an RGB24
/// image of `width` × `height` pixels.
pub uninterp spec fn nearest_rgb32(pixels: Seq<u8>, width: u32, height: u32) -> Seq<u8>;

/// Resizes an RGB24 image of `width` × `height` pixels to 32×32 by
/// nearest-neighbour sampling (fast_image_resize `Image::from_vec_u8`,
/// `Image::new` and `Resizer::resize` with `ResizeAlg::Nearest`).  It fails
/// exactly when the buffer is shorter than `width · height · 3` bytes; the
/// 3072 bytes it gives are named `nearest_rgb32(pixels@, width, height)`.
/// Which source pixel each output pixel copies is left to fast_image_resize.
#[verifier::external_body]
fn resize_rgb_nearest_32(pixels: Vec<u8>, width: u32, height: u32) -> (r: Option<Vec<u8>>)
    requires
        (width as int) * (height as int) * 3 <= usize::MAX,
    ensures
        r is None <==> pixels@.len() < (width as int) * (height as int) * 3,
        match r {
            Some(out) => out@.len() == 3072 && out@ == nearest_rgb32(pixels@, width, height),
            None => true,
        },
{
    let src = match Image::from_vec_u8(width, height, pixels, PixelType::U8x3) {
        Ok(img) => img,
        Err(_) => return None,
    };
    let mut dst = Image::new(32, 32, PixelType::U8x3);
    let options = ResizeOptions::new().resize_alg(ResizeAlg::Nearest);
    match Resizer::new().resize(&src, &mut dst, &options) {
        Ok(()) => Some(dst.into_vec()),
        Err(_) => None,
    }
}

proof fn lemma_packed_seq(packed: Seq<u8>, data: Seq<u8>, stride: int, row_bytes: int, rows: int)
    requires
        0 < row_bytes,
        0 <= rows,
        packed.len() == rows * row_bytes,
        forall|r: int, c: int|
            0 <= r < rows && 0 <= c < row_bytes ==> #[trigger] packed[r * row_bytes + c]
                == data[r * stride + c],
    ensures
        packed == packed_seq(data, stride, row_bytes, rows),
{
    assert forall|k: int| 0 <= k < packed.len() implies packed[k] == packed_seq(
        data,
        stride,
        row_bytes,
        rows,
    )[k] by {
        let r = k / row_bytes;
        let c = k % row_bytes;
        vstd::arithmetic::div_mod::lemma_fundamental_div_mod(k, row_bytes);
        assert(0 <= r < rows) by (nonlinear_arith)
            requires
                0 <= k < rows * row_bytes,
                r == k / row_bytes,
                0 < row_bytes,
        ;
        assert(packed[r * row_bytes + c] == data[r * stride + c]);
    }
    assert(packed =~= packed_seq(data, stride, row_bytes, rows));
}

/// Converts the RGB24 plane of a decoded frame (`height` rows of
/// `width · 3` bytes, `stride` bytes apart) to a 32×32 grayscale frame:
/// pack the rows, resize to 32×32 by nearest-neighbour sampling, and take
/// the BT.601 luma of each pixel.  A frame with no pixels gives none.
pub fn frame_to_gray32(rgb: &[u8], stride: usize, width: u32, height: u32) -> (r: Option<
    Box<[u8; 1024]>,
>)
    requires
        (width as int) * 3 <= stride,
        (width as int) * (height as int) * 3 <= usize::MAX,
        height == 0 || (height - 1) * stride + (width as int) * 3 <= rgb@.len(),
    ensures
        r is None <==> (width == 0 || height == 0),
        match r {
            Some(g) => g@ == gray_of_rgb32(
                nearest_rgb32(
                    packed_seq(rgb@, stride as int, (width as int) * 3, height as int),
                    width,
                    height,
                ),
            ),
            None => true,
        },
{
    if width == 0 || height == 0 {
        return None;
    }
    let row_bytes = (width as usize) * 3;
    proof {
        assert((width as int) * (height as int) * 3 == (height as int) * (row_bytes as int))
            by (nonlinear_arith)
            requires
                row_bytes == (width as int) * 3,
        ;
    }
    let flat = pack_rows(rgb, stride, row_bytes, height as usize);
    proof {
        lemma_packed_seq(flat@, rgb@, stride as int, row_bytes as int, height as int);
    }
    let resized = resize_rgb_nearest_32(flat, width, height);
    match resized {
        Some(small) => {
            let gray = gray_from_rgb32(small.as_slice());
            proof {
                assert(gray@ =~= gray_of_rgb32(small@));
            }
            Some(gray)
        },
        None => None,
    }
}

} // verus!
