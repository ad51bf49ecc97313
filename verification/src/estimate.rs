use vstd::prelude::*;
use crate::counting::{
    box_count, cell_occupied, count_occupied_cells, lemma_box_count_bound, occupied_cells, Color,
};
use crate::raster::{Grid, Raster};

verus! {

/// One measurement: how many boxes of side `box_size` are occupied.
#[derive(Clone, Copy, Debug, PartialEq, Eq, Structural)]
pub struct Sample {
    pub box_size: u32,
    pub count: u64,
}

/// Why a color class has no dimension estimate.
#[derive(Clone, Copy, Debug, PartialEq, Eq, Structural)]
pub enum EstimateError {
    /// Fewer than two box sizes: no line goes through less than two points.
    TooFewBoxSizes,
    /// A box size of zero.
    ZeroBoxSize,
    /// The same box size twice.
    RepeatedBoxSize,
    /// No box is occupied at some box size: the logarithm of the count is
    /// undefined, and so is the dimension.
    ZeroOccupancy,
}

pub open spec fn has_zero(sizes: Seq<u32>) -> bool {
    exists|i: int| 0 <= i < sizes.len() && sizes[i] == 0
}

pub open spec fn has_repeat(sizes: Seq<u32>) -> bool {
    exists|i: int, j: int| 0 <= i < j < sizes.len() && sizes[i] == sizes[j]
}

/// Whether the box sizes can carry an estimate: at least two of them, none
/// zero, none twice.
pub open spec fn box_sizes_verdict(sizes: Seq<u32>) -> Result<(), EstimateError> {
    if sizes.len() < 2 {
        Err(EstimateError::TooFewBoxSizes)
    } else if has_zero(sizes) {
        Err(EstimateError::ZeroBoxSize)
    } else if has_repeat(sizes) {
        Err(EstimateError::RepeatedBoxSize)
    } else {
        Ok(())
    }
}

/// The box sizes of the samples, in their order.
pub open spec fn sizes_of(samples: Seq<Sample>) -> Seq<u32> {
    Seq::new(samples.len(), |i: int| samples[i].box_size)
}

pub open spec fn has_empty_count(samples: Seq<Sample>) -> bool {
    exists|i: int| 0 <= i < samples.len() && samples[i].count == 0
}

/// Whether the samples can be fitted: their box sizes must be in order, and
/// every count positive.
pub open spec fn samples_verdict(samples: Seq<Sample>) -> Result<(), EstimateError> {
    match box_sizes_verdict(sizes_of(samples)) {
        Err(e) => Err(e),
        Ok(_) => if has_empty_count(samples) {
            Err(EstimateError::ZeroOccupancy)
        } else {
            Ok(())
        },
    }
}

/// The measurements of the color of intensity `level` at each of the box
/// sizes, in their order.
pub open spec fn samples_of(g: Grid, level: u8, sizes: Seq<u32>) -> Seq<Sample> {
    Seq::new(
        sizes.len(),
        |i: int| Sample { box_size: sizes[i], count: box_count(g, sizes[i] as int, level) as u64 },
    )
}

/// What `collect_samples` answers.
pub open spec fn collected(g: Grid, level: u8, sizes: Seq<u32>) -> Result<
    Seq<Sample>,
    EstimateError,
> {
    match samples_verdict(samples_of(g, level, sizes)) {
        Err(e) => Err(e),
        Ok(_) => Ok(samples_of(g, level, sizes)),
    }
}

/// Some pixel of the grid has the intensity `level`.
pub open spec fn has_level(g: Grid, level: u8) -> bool {
    exists|x: int, y: int| g.contains(x, y) && #[trigger] g.at(x, y) == level
}

/// Judges a list of box sizes before anything is measured with it.
pub fn validate_box_sizes(box_sizes: &[u32]) -> (r: Result<(), EstimateError>)
    ensures
        r == box_sizes_verdict(box_sizes@),
{
    let n = box_sizes.len();
    if n < 2 {
        return Err(EstimateError::TooFewBoxSizes);
    }
    let mut i: usize = 0;
    while i < n
        invariant
            i <= n,
            2 <= n == box_sizes.len(),
            forall|k: int| 0 <= k < i ==> box_sizes[k] != 0,
        decreases n - i,
    {
        if box_sizes[i] == 0 {
            assert(0 <= i < box_sizes@.len() && box_sizes@[i as int] == 0);
            return Err(EstimateError::ZeroBoxSize);
        }
        i += 1;
    }
    let mut j: usize = 1;
    while j < n
        invariant
            1 <= j <= n,
            2 <= n == box_sizes.len(),
            !has_zero(box_sizes@),
            forall|a: int, b: int| 0 <= a < b < j ==> box_sizes[a] != box_sizes[b],
        decreases n - j,
    {
        let mut k: usize = 0;
        while k < j
            invariant
                k <= j < n,
                2 <= n == box_sizes.len(),
                !has_zero(box_sizes@),
                forall|a: int, b: int| 0 <= a < b < j ==> box_sizes[a] != box_sizes[b],
                forall|a: int| 0 <= a < k ==> box_sizes[a] != box_sizes[j as int],
            decreases j - k,
        {
            if box_sizes[k] == box_sizes[j] {
                return Err(EstimateError::RepeatedBoxSize);
            }
            k += 1;
        }
        j += 1;
    }
    Ok(())
}

/// Judges measurements before a line is fitted through their logarithms. A
/// count of zero has no logarithm, so it is an error of its own.
pub fn validate_samples(samples: &[Sample]) -> (r: Result<(), EstimateError>)
    ensures
        r == samples_verdict(samples@),
{
    let n = samples.len();
    let mut sizes: Vec<u32> = Vec::new();
    let mut i: usize = 0;
    while i < n
        invariant
            i <= n,
            n == samples.len(),
            sizes@ == sizes_of(samples@).take(i as int),
        decreases n - i,
    {
        sizes.push(samples[i].box_size);
        assert(sizes@ =~= sizes_of(samples@).take(i + 1));
        i += 1;
    }
    assert(sizes@ =~= sizes_of(samples@));
    match validate_box_sizes(sizes.as_slice()) {
        Err(e) => {
            return Err(e);
        },
        Ok(_) => {},
    }
    let mut k: usize = 0;
    while k < n
        invariant
            k <= n,
            n == samples.len(),
            box_sizes_verdict(sizes_of(samples@)) is Ok,
            forall|a: int| 0 <= a < k ==> samples[a].count != 0,
        decreases n - k,
    {
        if samples[k].count == 0 {
            assert(0 <= k < samples@.len() && samples@[k as int].count == 0);
            return Err(EstimateError::ZeroOccupancy);
        }
        k += 1;
    }
    Ok(())
}

/// Measures the color `target` at each of the box sizes, and hands the
/// measurements out in the order of the box sizes if a line can be fitted
/// through their logarithms.
pub fn collect_samples(image: &Raster, target: Color, box_sizes: &[u32]) -> (r: Result<
    Vec<Sample>,
    EstimateError,
>)
    ensures
        match r {
            Ok(samples) => collected(image@, target.level(), box_sizes@) == Ok::<
                Seq<Sample>,
                EstimateError,
            >(samples@) && forall|i: int|
                0 <= i < samples.len() ==> 0 < (#[trigger] samples[i]).count == box_count(
                    image@,
                    box_sizes[i] as int,
                    target.level(),
                ),
            Err(e) => collected(image@, target.level(), box_sizes@) == Err::<
                Seq<Sample>,
                EstimateError,
            >(e),
        },
{
    let ghost g = image@;
    let ghost level = target.level();
    let ghost expected = samples_of(g, level, box_sizes@);
    assert(sizes_of(expected) =~= box_sizes@);
    match validate_box_sizes(box_sizes) {
        Err(e) => {
            return Err(e);
        },
        Ok(_) => {},
    }
    let n = box_sizes.len();
    let mut samples: Vec<Sample> = Vec::new();
    let mut i: usize = 0;
    while i < n
        invariant
            i <= n,
            n == box_sizes.len(),
            g == image@,
            level == target.level(),
            expected == samples_of(g, level, box_sizes@),
            !has_zero(box_sizes@),
            samples@ == expected.take(i as int),
            forall|k: int|
                0 <= k < i ==> (#[trigger] samples[k]).count == box_count(
                    g,
                    box_sizes[k] as int,
                    level,
                ),
        decreases n - i,
    {
        let box_size = box_sizes[i];
        let count = count_occupied_cells(image, box_size, target);
        samples.push(Sample { box_size, count });
        assert(samples@ =~= expected.take(i + 1));
        i += 1;
    }
    assert(samples@ =~= expected);
    match validate_samples(samples.as_slice()) {
        Err(e) => Err(e),
        Ok(_) => Ok(samples),
    }
}

/// A color class is without occupied boxes exactly when the raster has no
/// pixel of it, whatever the box size.
pub proof fn lemma_empty_class(g: Grid, box_size: int, level: u8)
    requires
        box_size >= 1,
    ensures
        box_count(g, box_size, level) == 0 <==> !has_level(g, level),
{
    lemma_box_count_bound(g, box_size, level);
    let cells = occupied_cells(g, box_size, level);
    if has_level(g, level) {
        let (x, y) = choose|x: int, y: int| g.contains(x, y) && #[trigger] g.at(x, y) == level;
        assert(cell_occupied(g, box_size, level, x / box_size, y / box_size));
        assert(cells.contains((x / box_size, y / box_size)));
        if cells.len() == 0 {
            assert(cells =~= Set::<(int, int)>::empty());
        }
    } else {
        assert(cells =~= Set::<(int, int)>::empty()) by {
            assert forall|c: (int, int)| !cells.contains(c) by {
                if cell_occupied(g, box_size, level, c.0, c.1) {
                    let (x, y) = choose|x: int, y: int|
                        g.contains(x, y) && x / box_size == c.0 && y / box_size == c.1
                            && #[trigger] g.at(x, y) == level;
                    assert(has_level(g, level));
                }
            }
        }
    }
}

/// A raster without a pixel of the color has no estimate for it: whatever box
/// sizes are in order, the measurement ends in `ZeroOccupancy`.
pub proof fn lemma_absent_color_is_undefined(g: Grid, level: u8, sizes: Seq<u32>)
    requires
        !has_level(g, level),
        box_sizes_verdict(sizes) is Ok,
    ensures
        collected(g, level, sizes) == Err::<Seq<Sample>, EstimateError>(
            EstimateError::ZeroOccupancy,
        ),
        forall|i: int| 0 <= i < sizes.len() ==> box_count(g, #[trigger] sizes[i] as int, level) == 0,
{
    let samples = samples_of(g, level, sizes);
    assert(sizes_of(samples) =~= sizes);
    assert forall|i: int| 0 <= i < sizes.len() implies box_count(
        g,
        #[trigger] sizes[i] as int,
        level,
    ) == 0 by {
        assert(sizes[i] != 0);
        lemma_empty_class(g, sizes[i] as int, level);
    }
    assert(samples[0].count == 0);
}

} // verus!
