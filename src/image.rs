use vstd::prelude::*;

verus! {

/// The number of pixels of an image, if it fits in a `usize`.
pub fn pixel_count(width: usize, height: usize) -> (r: Option<usize>)
    ensures
        r == (if width * height <= usize::MAX {
            Some((width * height) as usize)
        } else {
            None::<usize>
        }),
{
    width.checked_mul(height)
}

/// The position of the pixel at index `i` of the output, which runs in scan
/// order: its column `i % width`, and its row `height - 1 - i / width`,
/// counted from the bottom from zero, so that the first row written is the
/// top one.
pub fn pixel_position(i: usize, width: usize, height: usize) -> (r: (usize, usize))
    requires
        width > 0,
        i < width * height,
    ensures
        r.0 == i % width,
        r.1 == height - 1 - i / width,
        r.1 < height,
{
    proof {
        vstd::arithmetic::div_mod::lemma_div_is_ordered_by_denominator(i as int, 1, width as int);
        assert(i / width < height) by (nonlinear_arith)
            requires
                width > 0,
                i < width * height,
        ;
    }
    (i % width, height - 1 - i / width)
}

} // verus!
