//! Interleaved audio: where channel `c` of frame `f` stands in a block.

use vstd::prelude::*;

verus! {

/// Where channel `c` of frame `f` stands in a block of `width` channels.
pub open spec fn cell(f: int, c: int, width: int) -> int {
    f * width + c
}

/// Position `f * width + c` belongs to frame `f`, channel `c`, and stands in a
/// block of `frames` frames.
pub proof fn cell_position(f: int, c: int, width: int, frames: int)
    requires
        0 <= f < frames,
        0 <= c < width,
    ensures
        (f * width + c) / width == f,
        (f * width + c) % width == c,
        0 <= f * width + c < frames * width,
{
    vstd::arithmetic::div_mod::lemma_fundamental_div_mod_converse(f * width + c, width, f, c);
    assert(f * width + c < frames * width) by (nonlinear_arith)
        requires
            0 <= f < frames,
            0 <= c < width,
    ;
    assert(0 <= f * width) by (nonlinear_arith)
        requires
            0 <= f,
            0 <= width,
    ;
}

/// A position in a block of `frames` frames belongs to one of them.
pub proof fn position_cell(k: int, width: int, frames: int)
    requires
        0 <= k < frames * width,
        0 < width,
    ensures
        0 <= k / width < frames,
        0 <= k % width < width,
        (k / width) * width + k % width == k,
{
    vstd::arithmetic::div_mod::lemma_fundamental_div_mod(k, width);
    assert(0 <= k / width < frames) by (nonlinear_arith)
        requires
            0 <= k < frames * width,
            0 < width,
    ;
    assert((k / width) * width == width * (k / width)) by (nonlinear_arith);
}

/// The next frame starts where the last one ends.
pub proof fn next_frame(f: int, width: int)
    ensures
        (f + 1) * width == f * width + width,
        0 * width == 0,
{
    assert((f + 1) * width == f * width + width) by (nonlinear_arith);
}

} // verus!
