use vstd::prelude::*;
use crate::raster::{lemma_index_in_range, Grid, Raster};

verus! {

/// The level that thresholding gives an intensity: white from the threshold
/// upwards, black below it.
pub open spec fn threshold_level(intensity: u8, threshold: u8) -> u8 {
    if intensity >= threshold {
        255u8
    } else {
        0u8
    }
}

/// The grid `g` with every pixel thresholded.
pub open spec fn binarized(g: Grid, threshold: u8) -> Grid {
    Grid {
        width: g.width,
        height: g.height,
        pixels: Seq::new(g.pixels.len(), |i: int| threshold_level(g.pixels[i], threshold)),
    }
}

/// Every pixel is black or white.
pub open spec fn is_binary(g: Grid) -> bool {
    forall|i: int| 0 <= i < g.pixels.len() ==> g.pixels[i] == 0 || g.pixels[i] == 255
}

/// The first `done` pixels of `g` thresholded, the others as they are.
spec fn partly_binarized(g: Grid, threshold: u8, done: int) -> Seq<u8> {
    Seq::new(
        g.pixels.len(),
        |i: int|
            if i < done {
                threshold_level(g.pixels[i], threshold)
            } else {
                g.pixels[i]
            },
    )
}

fn level_of(intensity: u8, threshold: u8) -> (level: u8)
    ensures
        level == threshold_level(intensity, threshold),
{
    if intensity >= threshold {
        255
    } else {
        0
    }
}

/// Thresholds a raster into a two-level raster of the same dimensions: a
/// pixel becomes 255 where its intensity reaches `threshold`, and 0 elsewhere.
pub fn binarize(image: &Raster, threshold: u8) -> (out: Raster)
    ensures
        image@.wf(),
        out@ == binarized(image@, threshold),
        out@.wf(),
        is_binary(out@),
        forall|x: int, y: int|
            image@.contains(x, y) ==> (#[trigger] out@.at(x, y) == 255 <==> image@.at(x, y)
                >= threshold) && (out@.at(x, y) == 0 <==> image@.at(x, y) < threshold),
{
    let ghost g = image@;
    let width = image.width();
    let height = image.height();
    let mut out = image.clone();
    assert(out@.pixels =~= partly_binarized(g, threshold, 0));
    let mut y: u32 = 0;
    while y < height
        invariant
            g == image@,
            g.wf(),
            width == g.width,
            height == g.height,
            y <= height,
            out@.width == g.width,
            out@.height == g.height,
            out@.pixels == partly_binarized(g, threshold, y * width),
        decreases height - y,
    {
        let mut x: u32 = 0;
        while x < width
            invariant
                g == image@,
                g.wf(),
                width == g.width,
                height == g.height,
                y < height,
                x <= width,
                out@.width == g.width,
                out@.height == g.height,
                out@.pixels == partly_binarized(g, threshold, y * width + x),
            decreases width - x,
        {
            proof {
                lemma_index_in_range(g, x as int, y as int);
            }
            let level = level_of(image.pixel_at(x, y), threshold);
            out.set(x, y, level);
            assert(out@.pixels =~= partly_binarized(g, threshold, y * width + x + 1));
            x += 1;
        }
        assert((y + 1) * width == y * width + width) by (nonlinear_arith);
        y += 1;
    }
    proof {
        assert(height * width == g.pixels.len()) by (nonlinear_arith)
            requires
                g.pixels.len() == width * height,
        ;
        assert(out@.pixels =~= binarized(g, threshold).pixels);
        assert forall|x: int, y: int| g.contains(x, y) implies (#[trigger] out@.at(x, y) == 255
            <==> g.at(x, y) >= threshold) && (out@.at(x, y) == 0 <==> g.at(x, y) < threshold) by {
            lemma_index_in_range(g, x, y);
        }
    }
    out
}

} // verus!
