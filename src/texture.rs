//! Row alignment of texture read-backs.
use vstd::prelude::*;

verus! {

/// Row pitch alignment required for texture copies, in bytes.
pub const ROW_ALIGNMENT: u32 = 256;

/// Bytes per row after padding: `width * bytes_per_pixel` rounded up to a
/// multiple of `ROW_ALIGNMENT`.
pub open spec fn padded_row_len(width: int, bytes_per_pixel: int) -> int {
    ((width * bytes_per_pixel + 255) / 256) * 256
}

/// Byte offset of column `x` of row `y` in rows of `stride` bytes.
pub open spec fn offset(y: int, stride: int, x: int) -> int {
    y * stride + x
}

/// Aligned bytes per row for a texture copy (a multiple of 256).
pub fn padded_bytes_per_row(width: u32, bytes_per_pixel: u32) -> (r: u32)
    requires
        width * bytes_per_pixel + 255 <= u32::MAX,
    ensures
        r as int == padded_row_len(width as int, bytes_per_pixel as int),
        r % ROW_ALIGNMENT == 0,
        r >= width * bytes_per_pixel,
        r < width * bytes_per_pixel + ROW_ALIGNMENT,
{
    let unpadded = width * bytes_per_pixel;
    ((unpadded + 255) / 256) * 256
}

/// Removes the row padding from texture data read back with rows of
/// `padded_bytes_per_row(width, bytes_per_pixel)` bytes: row `y` of the result
/// is the first `width * bytes_per_pixel` bytes of padded row `y`. Data whose
/// rows carry no padding is returned whole.
pub fn unpad_rows(padded_data: &[u8], width: u32, height: u32, bytes_per_pixel: u32) -> (r: Vec<u8>)
    requires
        width * bytes_per_pixel + 255 <= u32::MAX,
        width * bytes_per_pixel * height <= u32::MAX,
        height > 0 ==> (height - 1) * padded_row_len(width as int, bytes_per_pixel as int) <= u32::MAX,
        height > 0 ==> (height - 1) * padded_row_len(width as int, bytes_per_pixel as int) + width
            * bytes_per_pixel <= padded_data@.len(),
    ensures
        padded_row_len(width as int, bytes_per_pixel as int) == width * bytes_per_pixel ==> r@
            == padded_data@,
        padded_row_len(width as int, bytes_per_pixel as int) != width * bytes_per_pixel ==> {
            &&& r@.len() == height * (width * bytes_per_pixel)
            &&& forall|y: int, x: int|
                0 <= y < height && 0 <= x < width * bytes_per_pixel ==> #[trigger] r@[offset(
                    y,
                    width * bytes_per_pixel,
                    x,
                )] == padded_data@[offset(y, padded_row_len(width as int, bytes_per_pixel as int), x)]
        },
{
    let unpadded_bpr = width * bytes_per_pixel;
    let padded_bpr = padded_bytes_per_row(width, bytes_per_pixel);
    if unpadded_bpr == padded_bpr {
        let mut whole: Vec<u8> = Vec::new();
        let mut i: usize = 0;
        while i < padded_data.len()
            invariant
                i <= padded_data@.len(),
                whole@ == padded_data@.subrange(0, i as int),
            decreases padded_data.len() - i,
        {
            whole.push(padded_data[i]);
            assert(whole@ =~= padded_data@.subrange(0, i + 1));
            i = i + 1;
        }
        assert(padded_data@.subrange(0, padded_data@.len() as int) =~= padded_data@);
        return whole;
    }
    let ghost u = unpadded_bpr as int;
    let ghost p = padded_bpr as int;
    let mut unpadded: Vec<u8> = Vec::new();
    let data_len = padded_data.len();
    let mut y: u32 = 0;
    while y < height
        invariant
            u == unpadded_bpr,
            p == padded_bpr,
            p == padded_row_len(width as int, bytes_per_pixel as int),
            u < p,
            y <= height,
            data_len == padded_data@.len(),
            height > 0 ==> (height - 1) * p <= u32::MAX,
            height > 0 ==> (height - 1) * p + u <= padded_data@.len(),
            unpadded@.len() == y * u,
            forall|yy: int, x: int|
                0 <= yy < y && 0 <= x < u ==> #[trigger] unpadded@[offset(yy, u, x)] == padded_data@[offset(yy, p, x)],
        decreases height - y,
    {
        assert(y * p <= (height - 1) * p) by (nonlinear_arith)
            requires
                y < height,
                p >= 0,
        ;
        let start = (y * padded_bpr) as usize;
        let mut x: usize = 0;
        while x < unpadded_bpr as usize
            invariant
                u == unpadded_bpr,
                p == padded_bpr,
                u < p,
                y < height,
                start == y * p,
                start + u <= padded_data@.len(),
                data_len == padded_data@.len(),
                x <= u,
                unpadded@.len() == y * u + x,
                forall|yy: int, xx: int|
                    0 <= yy < y && 0 <= xx < u ==> #[trigger] unpadded@[offset(yy, u, xx)] == padded_data@[offset(yy, p, xx)],
                forall|xx: int| 0 <= xx < x ==> #[trigger] unpadded@[offset(y as int, u, xx)] == padded_data@[offset(y as int, p, xx)],
            decreases u - x,
        {
            let ghost before = unpadded@;
            unpadded.push(padded_data[start + x]);
            proof {
                assert forall|yy: int, xx: int|
                    0 <= yy < y && 0 <= xx < u implies #[trigger] unpadded@[offset(yy, u, xx)] == padded_data@[offset(yy, p, xx)] by {
                    assert(yy * u + xx < y * u) by (nonlinear_arith)
                        requires
                            0 <= yy < y,
                            0 <= xx < u,
                    ;
                    assert(unpadded@[offset(yy, u, xx)] == before[offset(yy, u, xx)]);
                }
                assert forall|xx: int| 0 <= xx < x + 1 implies #[trigger] unpadded@[offset(y as int, u, xx)] == padded_data@[offset(y as int, p, xx)] by {
                    if xx < x {
                        assert(unpadded@[offset(y as int, u, xx)] == before[offset(y as int, u, xx)]);
                    }
                }
            }
            x = x + 1;
        }
        proof {
            assert(unpadded@.len() == (y + 1) * u) by (nonlinear_arith)
                requires
                    unpadded@.len() == y * u + u,
            ;
            assert forall|yy: int, xx: int|
                0 <= yy < y + 1 && 0 <= xx < u implies #[trigger] unpadded@[offset(yy, u, xx)] == padded_data@[offset(yy, p, xx)] by {
                if yy == y {
                    assert(unpadded@[offset(y as int, u, xx)] == padded_data@[offset(y as int, p, xx)]);
                }
            }
        }
        y = y + 1;
    }
    unpadded
}

} // verus!
