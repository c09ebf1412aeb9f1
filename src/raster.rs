//! Turning a rendered grey page into the black-and-white RGB image that
//! text recognition reads.

use vstd::prelude::*;

verus! {

/// Grey levels below this are ink.
pub const INK_THRESHOLD: u8 = 160;

/// The black-or-white level of pixel `p`: black for ink, white otherwise;
/// black where the page has no sample.
pub open spec fn pixel_level(samples: Seq<u8>, p: int) -> u8 {
    if p < samples.len() {
        if samples[p] < INK_THRESHOLD {
            0
        } else {
            255
        }
    } else {
        0
    }
}

/// Pixel `p` of the raw RGB data `r` holds the level of sample `p` in all
/// three channels.
pub open spec fn rgb_at(r: Seq<u8>, samples: Seq<u8>, p: int) -> bool {
    &&& r[3 * p] == pixel_level(samples, p)
    &&& r[3 * p + 1] == pixel_level(samples, p)
    &&& r[3 * p + 2] == pixel_level(samples, p)
}

/// The raw RGB data (rows top to bottom, three bytes per pixel) of a
/// `width` by `height` page whose grey samples are `samples`, in row order.
pub fn binarize(samples: &[u8], width: usize, height: usize) -> (r: Vec<u8>)
    requires
        width as int * height as int * 3 <= usize::MAX as int,
    ensures
        r@.len() == width as int * height as int * 3,
        forall|q: int| 0 <= q < width as int * height as int ==> #[trigger] rgb_at(r@, samples@, q),
{
    proof {
        assert(width as int * height as int <= usize::MAX as int) by (nonlinear_arith)
            requires
                width as int * height as int * 3 <= usize::MAX as int,
        ;
    }
    let total = width * height;
    let mut r: Vec<u8> = Vec::new();
    let mut p: usize = 0;
    while p < total
        invariant
            total as int == width as int * height as int,
            total as int * 3 <= usize::MAX as int,
            p <= total,
            r@.len() == 3 * p,
            forall|q: int| 0 <= q < p ==> #[trigger] rgb_at(r@, samples@, q),
        decreases total - p,
    {
        let level: u8 = if p < samples.len() {
            if samples[p] < INK_THRESHOLD {
                0
            } else {
                255
            }
        } else {
            0
        };
        let ghost before = r@;
        r.push(level);
        r.push(level);
        r.push(level);
        assert forall|q: int| 0 <= q < p + 1 implies #[trigger] rgb_at(r@, samples@, q) by {
            if q < p {
                assert(rgb_at(before, samples@, q));
            }
        }
        p += 1;
    }
    assert forall|q: int| 0 <= q < width as int * height as int implies #[trigger] rgb_at(
        r@,
        samples@,
        q,
    ) by {
        assert(q < p);
    }
    r
}

} // verus!
