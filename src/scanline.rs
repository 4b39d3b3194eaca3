//! Turning a row of escape-time iteration counts into pixel bytes.
//!
//! A pixel is four bytes in B, G, R, A order. A point whose count exceeds
//! the colour threshold is painted opaque black, any other point opaque
//! white.
use vstd::prelude::*;

verus! {

/// Bytes per pixel in a scanline and in a frame buffer.
pub const BYTES_PER_PIXEL: usize = 4;

/// The colour threshold used unless another is configured.
pub const DEFAULT_COLOR_THRESHOLD: u16 = 30;

/// The channel value of a point with iteration count `count`.
pub open spec fn shade_spec(count: u16, threshold: u16) -> u8 {
    if count > threshold {
        0
    } else {
        255
    }
}

/// The bytes of the scanline for the iteration counts `counts`, one pixel per
/// count, in order: three equal colour channels, then an opaque alpha.
pub open spec fn scanline_spec(counts: Seq<u16>, threshold: u16) -> Seq<u8> {
    Seq::new(
        4 * counts.len(),
        |i: int|
            if i % 4 == 3 {
                255u8
            } else {
                shade_spec(counts[i / 4], threshold)
            },
    )
}

/// The colour channel value for a point with iteration count `count`: black
/// (0) above `threshold`, white (255) otherwise.
pub fn shade(count: u16, threshold: u16) -> (r: u8)
    ensures
        r == shade_spec(count, threshold),
{
    if count > threshold {
        0
    } else {
        255
    }
}

/// The pixel bytes of one row whose points have the iteration counts `counts`.
pub fn scanline(counts: &Vec<u16>, threshold: u16) -> (r: Vec<u8>)
    requires
        4 * counts@.len() <= usize::MAX,
    ensures
        r@ == scanline_spec(counts@, threshold),
{
    let n = counts.len();
    let mut row: Vec<u8> = Vec::with_capacity(4 * n);
    let mut x: usize = 0;
    while x < n
        invariant
            x <= n,
            n == counts@.len(),
            4 * n <= usize::MAX,
            row@.len() == 4 * x,
            forall|i: int| 0 <= i < 4 * x ==> #[trigger] row@[i] == scanline_spec(counts@, threshold)[i],
        decreases n - x,
    {
        let c = shade(counts[x], threshold);
        row.push(c);
        row.push(c);
        row.push(c);
        row.push(255);
        proof {
            assert forall|i: int| 0 <= i < 4 * (x + 1) implies #[trigger] row@[i]
                == scanline_spec(counts@, threshold)[i] by {
                if i >= 4 * x {
                    assert(i / 4 == x as int);
                    assert(i % 4 == i - 4 * x);
                }
            }
        }
        x += 1;
    }
    assert(row@ =~= scanline_spec(counts@, threshold));
    row
}

} // verus!
