//! The rasterizer: from the classified points of a grid to a frame.
//!
//! The points of the grid are classified column by column, in any order and
//! by any number of workers. Each classified point is handed over as a
//! sample that names its pixel. The frame is made from the samples alone,
//! and only where they name each of its pixels exactly once.

use vstd::prelude::*;
use vstd::arithmetic::div_mod::lemma_fundamental_div_mod;
use crate::color::RgbColor;
use crate::escape::IterationResult;
use crate::escape::Status;
use crate::escape::result_color;
use crate::picture::Frame;
use crate::picture::FrameView;
use crate::picture::blank;
use crate::picture::fits;

verus! {

/// The classification of the point that belongs to the pixel in column `x`
/// and row `y`.
#[derive(Clone, Copy, Debug, PartialEq, Eq, Structural)]
pub struct Sample {
    pub x: u32,
    pub y: u32,
    pub status: Status,
}

/// Why no frame was made.
#[derive(Clone, Copy, Debug, PartialEq, Eq, Structural)]
pub enum RenderError {
    /// The frame would have no columns.
    ZeroWidth,
    /// The frame would have no rows.
    ZeroHeight,
    /// The iteration ceiling is zero.
    ZeroIterations,
    /// A picture of this size does not fit in memory.
    TooLarge,
    /// A sample names a pixel outside the frame.
    OutOfBounds { x: u32, y: u32 },
    /// The classification of a sample is still pending.
    Unfinished { x: u32, y: u32 },
    /// An iterate of the point of a sample was not a finite number.
    NonFinite { x: u32, y: u32, iteration: u32 },
    /// A sample names a pixel that an earlier sample named.
    Duplicate { x: u32, y: u32 },
    /// No sample names this pixel of the frame.
    Missing { x: u32, y: u32 },
}

/// The pixel that a sample names.
pub open spec fn position(sample: Sample) -> (int, int) {
    (sample.x as int, sample.y as int)
}

/// Whether one of the samples names `pixel`.
pub open spec fn names(samples: Seq<Sample>, pixel: (int, int)) -> bool {
    exists|j: int| 0 <= j < samples.len() && position(#[trigger] samples[j]) == pixel
}

/// Whether a sample before sample `i` names the pixel that sample `i` names.
pub open spec fn named_before(samples: Seq<Sample>, i: int) -> bool {
    exists|j: int| 0 <= j < i && position(#[trigger] samples[j]) == position(samples[i])
}

/// What is wrong with a sample taken by itself, for a frame of the given
/// size, if anything.
pub open spec fn sample_fault(sample: Sample, width: nat, height: nat) -> Option<RenderError> {
    if sample.x >= width || sample.y >= height {
        Some(RenderError::OutOfBounds { x: sample.x, y: sample.y })
    } else {
        match sample.status {
            Status::Pending => Some(RenderError::Unfinished { x: sample.x, y: sample.y }),
            Status::Failed(iteration) => Some(
                RenderError::NonFinite { x: sample.x, y: sample.y, iteration },
            ),
            Status::Finished(_) => None,
        }
    }
}

/// What is wrong with sample `i` of a run: what is wrong with it by itself,
/// or else that its pixel has been named before.
pub open spec fn fault_at(samples: Seq<Sample>, i: int, width: nat, height: nat) -> Option<
    RenderError,
> {
    match sample_fault(samples[i], width, height) {
        Some(error) => Some(error),
        None => if named_before(samples, i) {
            Some(RenderError::Duplicate { x: samples[i].x, y: samples[i].y })
        } else {
            None
        },
    }
}

/// What is wrong with the first sample with which anything is wrong.
pub open spec fn first_fault(samples: Seq<Sample>, width: nat, height: nat) -> Option<RenderError>
    decreases samples.len(),
{
    if samples.len() == 0 {
        None
    } else {
        match first_fault(samples.drop_last(), width, height) {
            Some(error) => Some(error),
            None => fault_at(samples, samples.len() - 1, width, height),
        }
    }
}

/// The pixel with the number `k`, where the pixels of a frame are counted
/// column after column, each from its top.
pub open spec fn pixel_at(k: int, height: nat) -> (int, int) {
    (k / (height as int), k % (height as int))
}

/// Whether pixel number `k` is the first pixel of the frame that no sample
/// names.
pub open spec fn is_first_missing(samples: Seq<Sample>, width: nat, height: nat, k: int) -> bool {
    &&& 0 <= k < width * height
    &&& !names(samples, pixel_at(k, height))
    &&& forall|j: int| 0 <= j < k ==> names(samples, #[trigger] pixel_at(j, height))
}

/// The first pixel of the frame that no sample names, if there is one.
pub open spec fn missing_fault(samples: Seq<Sample>, width: nat, height: nat) -> Option<
    RenderError,
> {
    if exists|k: int| is_first_missing(samples, width, height, k) {
        let k = choose|k: int| is_first_missing(samples, width, height, k);
        Some(
            RenderError::Missing {
                x: pixel_at(k, height).0 as u32,
                y: pixel_at(k, height).1 as u32,
            },
        )
    } else {
        None
    }
}

/// The colour that a sample gives its pixel.
pub open spec fn sample_color(sample: Sample, iterations: nat) -> RgbColor {
    match sample.status {
        Status::Finished(result) => result_color(result, iterations),
        _ => crate::color::black(),
    }
}

/// The frame after each sample in turn has coloured its pixel.
pub open spec fn paint_all(frame: FrameView, samples: Seq<Sample>, iterations: nat) -> FrameView
    decreases samples.len(),
{
    if samples.len() == 0 {
        frame
    } else {
        paint_all(frame, samples.drop_last(), iterations).put(
            samples.last().x as int,
            samples.last().y as int,
            sample_color(samples.last(), iterations),
        )
    }
}

/// The samples of all columns, in the order of the columns.
pub open spec fn samples_of(columns: Seq<Vec<Sample>>) -> Seq<Sample>
    decreases columns.len(),
{
    if columns.len() == 0 {
        Seq::empty()
    } else {
        samples_of(columns.drop_last()) + columns.last()@
    }
}

/// What rasterizing gives: the error of the first check that fails, or the
/// frame of the given size coloured by the samples.
///
/// The checks, in their order: the width, the height and the ceiling are not
/// zero; the picture fits in memory; nothing is wrong with any sample, and
/// none names a pixel that an earlier one named; every pixel of the frame is
/// named.
pub open spec fn render_outcome(
    width: nat,
    height: nat,
    iterations: nat,
    samples: Seq<Sample>,
) -> Result<FrameView, RenderError> {
    if width == 0 {
        Err(RenderError::ZeroWidth)
    } else if height == 0 {
        Err(RenderError::ZeroHeight)
    } else if iterations == 0 {
        Err(RenderError::ZeroIterations)
    } else if !fits(width, height) {
        Err(RenderError::TooLarge)
    } else {
        match first_fault(samples, width, height) {
            Some(error) => Err(error),
            None => match missing_fault(samples, width, height) {
                Some(error) => Err(error),
                None => Ok(paint_all(blank(width, height), samples, iterations)),
            },
        }
    }
}

/// Whether `result` is what rasterizing gives for these arguments.
pub open spec fn is_rendering(
    result: Result<Frame, RenderError>,
    width: nat,
    height: nat,
    iterations: nat,
    samples: Seq<Sample>,
) -> bool {
    match render_outcome(width, height, iterations, samples) {
        Ok(view) => result matches Ok(frame) && frame@ == view,
        Err(error) => result matches Err(e) && e == error,
    }
}

/// Whether no two of the samples name the same pixel.
pub open spec fn distinct_positions(samples: Seq<Sample>) -> bool {
    forall|i: int, j: int|
        0 <= i < j < samples.len() ==> position(#[trigger] samples[i]) != position(
            #[trigger] samples[j],
        )
}

/// Whether the samples name each pixel of the frame exactly once, and no
/// other pixel.
pub open spec fn names_each_pixel_once(samples: Seq<Sample>, width: nat, height: nat) -> bool {
    &&& distinct_positions(samples)
    &&& forall|i: int|
        0 <= i < samples.len() ==> (#[trigger] samples[i]).x < width && samples[i].y < height
    &&& forall|x: int, y: int| 0 <= x < width && 0 <= y < height ==> names(samples, (x, y))
}

/// Whether two runs hold the same samples, in whatever order.
pub open spec fn same_samples(a: Seq<Sample>, b: Seq<Sample>) -> bool {
    forall|sample: Sample| a.contains(sample) <==> b.contains(sample)
}

/// Colouring by two runs of samples is colouring by the first and then by
/// the second.
pub proof fn lemma_paint_all_concat(
    frame: FrameView,
    a: Seq<Sample>,
    b: Seq<Sample>,
    iterations: nat,
)
    ensures
        paint_all(frame, a + b, iterations) == paint_all(
            paint_all(frame, a, iterations),
            b,
            iterations,
        ),
    decreases b.len(),
{
    if b.len() == 0 {
        assert(a + b == a);
    } else {
        assert((a + b).drop_last() == a + b.drop_last());
        assert((a + b).last() == b.last());
        lemma_paint_all_concat(frame, a, b.drop_last(), iterations);
    }
}

/// Once something is wrong with a sample, the samples that follow change
/// nothing: the first fault stays the first.
pub proof fn lemma_first_fault_persists(
    samples: Seq<Sample>,
    longer: Seq<Sample>,
    width: nat,
    height: nat,
)
    requires
        samples.is_prefix_of(longer),
        first_fault(samples, width, height) is Some,
    ensures
        first_fault(longer, width, height) == first_fault(samples, width, height),
    decreases longer.len(),
{
    if longer.len() == samples.len() {
        assert(longer == samples);
    } else {
        assert(samples.is_prefix_of(longer.drop_last()));
        lemma_first_fault_persists(samples, longer.drop_last(), width, height);
    }
}

/// A run with one more sample names what the run names, and the pixel of
/// that sample.
proof fn lemma_names_push(samples: Seq<Sample>, sample: Sample, pixel: (int, int))
    ensures
        names(samples.push(sample), pixel) == (names(samples, pixel) || position(sample) == pixel),
{
    let longer = samples.push(sample);
    if names(samples, pixel) {
        let j = choose|j: int| 0 <= j < samples.len() && position(#[trigger] samples[j]) == pixel;
        assert(longer[j] == samples[j]);
    }
    if position(sample) == pixel {
        assert(longer[samples.len() as int] == sample);
    }
    if names(longer, pixel) {
        let j = choose|j: int| 0 <= j < longer.len() && position(#[trigger] longer[j]) == pixel;
        if j < samples.len() {
            assert(samples[j] == longer[j]);
        }
    }
}

/// The last sample of a run is named before exactly if the run without it
/// names its pixel.
proof fn lemma_named_before_last(samples: Seq<Sample>, sample: Sample)
    ensures
        named_before(samples.push(sample), samples.len() as int) == names(
            samples,
            position(sample),
        ),
{
    let longer = samples.push(sample);
    let last = samples.len() as int;
    assert(longer[last] == sample);
    if names(samples, position(sample)) {
        let j = choose|j: int|
            0 <= j < samples.len() && position(#[trigger] samples[j]) == position(sample);
        assert(longer[j] == samples[j]);
    }
    if named_before(longer, last) {
        let j = choose|j: int|
            0 <= j < last && position(#[trigger] longer[j]) == position(longer[last]);
        assert(samples[j] == longer[j]);
    }
}

/// The pixel in column `x` and row `y` of a frame has the number
/// `x * height + y`.
proof fn lemma_pixel_number(x: int, y: int, width: nat, height: nat)
    requires
        0 <= x < width,
        0 <= y < height,
    ensures
        0 <= x * height + y < width * height,
        pixel_at(x * height + y, height) == (x, y),
{
    let h = height as int;
    let k = x * h + y;
    assert(0 <= x * h && x * h + h <= width * h) by (nonlinear_arith)
        requires
            0 <= x < width,
            h > 0,
    ;
    lemma_fundamental_div_mod(k, h);
    let q = k / h;
    let r = k % h;
    assert(0 <= r < h);
    assert(q == x && r == y) by (nonlinear_arith)
        requires
            x * h + y == h * q + r,
            0 <= r < h,
            0 <= y < h,
    ;
}

/// Different numbers are different pixels.
proof fn lemma_pixel_at_injective(k: int, j: int, height: nat)
    requires
        height > 0,
        pixel_at(k, height) == pixel_at(j, height),
    ensures
        k == j,
{
    lemma_fundamental_div_mod(k, height as int);
    lemma_fundamental_div_mod(j, height as int);
}

/// Whether `seen` says of each pixel of the frame, under its number,
/// whether one of the samples names it.
spec fn seen_matches(seen: Seq<bool>, samples: Seq<Sample>, width: nat, height: nat) -> bool {
    &&& seen.len() == width * height
    &&& forall|k: int|
        0 <= k < width * height ==> seen[k] == names(samples, #[trigger] pixel_at(k, height))
}

/// Colours the pixels of `frame` by the samples of one column in turn, up to
/// the first sample with which something is wrong. `before` holds the
/// samples taken so far, and `seen` says which pixels they name.
fn paint_column(
    frame: &mut Frame,
    seen: &mut Vec<bool>,
    column: &Vec<Sample>,
    iterations: u32,
    Ghost(before): Ghost<Seq<Sample>>,
) -> (result: Result<(), RenderError>)
    requires
        old(frame)@.width > 0,
        old(frame)@.height > 0,
        fits(old(frame)@.width, old(frame)@.height),
        first_fault(before, old(frame)@.width, old(frame)@.height) is None,
        seen_matches(old(seen)@, before, old(frame)@.width, old(frame)@.height),
    ensures
        final(frame)@.width == old(frame)@.width,
        final(frame)@.height == old(frame)@.height,
        match first_fault(before + column@, old(frame)@.width, old(frame)@.height) {
            Some(error) => result == Err::<(), RenderError>(error),
            None => {
                &&& result is Ok
                &&& final(frame)@ == paint_all(old(frame)@, column@, iterations as nat)
                &&& seen_matches(
                    final(seen)@,
                    before + column@,
                    old(frame)@.width,
                    old(frame)@.height,
                )
            },
        },
{
    let width: u32 = frame.width();
    let height: u32 = frame.height();
    let mut r: usize = 0;
    assert(before + column@.take(0) == before);
    while r < column.len()
        invariant
            r <= column@.len(),
            width > 0,
            height > 0,
            fits(width as nat, height as nat),
            frame@.width == width,
            frame@.height == height,
            old(frame)@.width == width,
            old(frame)@.height == height,
            first_fault(before + column@.take(r as int), width as nat, height as nat) is None,
            frame@ == paint_all(old(frame)@, column@.take(r as int), iterations as nat),
            seen_matches(seen@, before + column@.take(r as int), width as nat, height as nat),
        decreases column@.len() - r,
    {
        let sample: Sample = column[r];
        let ghost taken = before + column@.take(r as int);
        let ghost next = before + column@.take(r + 1);
        proof {
            assert(next == taken.push(sample));
            assert(next.drop_last() == taken);
            assert(column@.take(r + 1).drop_last() == column@.take(r as int));
            assert(column@.take(r + 1).last() == sample);
            assert(next.is_prefix_of(before + column@));
            lemma_named_before_last(taken, sample);
            if first_fault(next, width as nat, height as nat) is Some {
                lemma_first_fault_persists(next, before + column@, width as nat, height as nat);
            }
        }
        if sample.x >= width || sample.y >= height {
            return Err(RenderError::OutOfBounds { x: sample.x, y: sample.y });
        }
        let result: IterationResult = match sample.status {
            Status::Pending => {
                return Err(RenderError::Unfinished { x: sample.x, y: sample.y });
            },
            Status::Failed(iteration) => {
                return Err(RenderError::NonFinite { x: sample.x, y: sample.y, iteration });
            },
            Status::Finished(result) => result,
        };
        proof {
            lemma_pixel_number(sample.x as int, sample.y as int, width as nat, height as nat);
            assert(3 * (width * height) == 3 * width * height) by (nonlinear_arith);
        }
        let number: usize = (sample.x as usize) * (height as usize) + (sample.y as usize);
        assert(pixel_at(number as int, height as nat) == position(sample));
        if seen[number] {
            return Err(RenderError::Duplicate { x: sample.x, y: sample.y });
        }
        let ghost seen_before = seen@;
        seen.set(number, true);
        frame.put_pixel(sample.x, sample.y, result.color(iterations));
        proof {
            assert forall|k: int| 0 <= k < width * height implies seen@[k] == names(
                next,
                #[trigger] pixel_at(k, height as nat),
            ) by {
                lemma_names_push(taken, sample, pixel_at(k, height as nat));
                if k != number {
                    assert(seen@[k] == seen_before[k]);
                    if pixel_at(k, height as nat) == position(sample) {
                        lemma_pixel_at_injective(k, number as int, height as nat);
                    }
                }
            }
        }
        r += 1;
    }
    assert(column@.take(r as int) == column@);
    Ok(())
}

/// A pixel that no sample names has a first such pixel before it, or is
/// that pixel itself.
proof fn lemma_first_missing_exists(samples: Seq<Sample>, width: nat, height: nat, k: int)
    requires
        0 <= k < width * height,
        !names(samples, pixel_at(k, height)),
    ensures
        exists|first: int| is_first_missing(samples, width, height, first),
    decreases k,
{
    if forall|j: int| 0 <= j < k ==> names(samples, #[trigger] pixel_at(j, height)) {
        assert(is_first_missing(samples, width, height, k));
    } else {
        let j = choose|j: int| 0 <= j < k && !names(samples, #[trigger] pixel_at(j, height));
        lemma_first_missing_exists(samples, width, height, j);
    }
}

/// There is at most one first pixel that no sample names.
proof fn lemma_first_missing_is_unique(
    samples: Seq<Sample>,
    width: nat,
    height: nat,
    k: int,
    j: int,
)
    requires
        is_first_missing(samples, width, height, k),
        is_first_missing(samples, width, height, j),
    ensures
        k == j,
{
    if k < j {
        assert(names(samples, pixel_at(k, height)));
    }
    if j < k {
        assert(names(samples, pixel_at(j, height)));
    }
}

/// The first pixel of the frame that no sample names, by what `seen` says.
fn find_missing(
    seen: &Vec<bool>,
    width: u32,
    height: u32,
    Ghost(samples): Ghost<Seq<Sample>>,
) -> (missing: Option<RenderError>)
    requires
        width > 0,
        height > 0,
        seen_matches(seen@, samples, width as nat, height as nat),
    ensures
        missing == missing_fault(samples, width as nat, height as nat),
{
    let mut k: usize = 0;
    while k < seen.len()
        invariant
            k <= seen@.len(),
            width > 0,
            height > 0,
            seen_matches(seen@, samples, width as nat, height as nat),
            forall|j: int| 0 <= j < k ==> names(samples, #[trigger] pixel_at(j, height as nat)),
        decreases seen@.len() - k,
    {
        if !seen[k] {
            let x: usize = k / (height as usize);
            let y: usize = k % (height as usize);
            proof {
                assert(!names(samples, pixel_at(k as int, height as nat)));
                assert(is_first_missing(samples, width as nat, height as nat, k as int));
                let first = choose|first: int|
                    is_first_missing(samples, width as nat, height as nat, first);
                lemma_first_missing_is_unique(
                    samples,
                    width as nat,
                    height as nat,
                    k as int,
                    first,
                );
                assert(x < width) by (nonlinear_arith)
                    requires
                        x == k as int / height as int,
                        0 <= k < width * height,
                        height > 0,
                ;
            }
            return Some(RenderError::Missing { x: x as u32, y: y as u32 });
        }
        k += 1;
    }
    proof {
        assert forall|first: int| !is_first_missing(
            samples,
            width as nat,
            height as nat,
            first,
        ) by {
            if is_first_missing(samples, width as nat, height as nat, first) {
                assert(names(samples, pixel_at(first, height as nat)));
            }
        }
    }
    None
}

/// Makes the frame of the given size from the samples of its columns.
///
/// Each sample colours the pixel it names by the classification it holds.
/// No frame is made where a size or the ceiling is zero, where the picture
/// does not fit in memory, where something is wrong with a sample, where a
/// sample names a pixel that an earlier one named, or where a pixel of the
/// frame is named by none. So a frame that is made has each of its pixels
/// from exactly one sample.
pub fn generate_mandelbrot(
    width: u32,
    height: u32,
    iterations: u32,
    columns: &Vec<Vec<Sample>>,
) -> (result: Result<Frame, RenderError>)
    ensures
        is_rendering(
            result,
            width as nat,
            height as nat,
            iterations as nat,
            samples_of(columns@),
        ),
        result is Ok ==> names_each_pixel_once(samples_of(columns@), width as nat, height as nat),
{
    if width == 0 {
        return Err(RenderError::ZeroWidth);
    }
    if height == 0 {
        return Err(RenderError::ZeroHeight);
    }
    if iterations == 0 {
        return Err(RenderError::ZeroIterations);
    }
    let mut frame = match Frame::new(width, height) {
        Some(frame) => frame,
        None => {
            return Err(RenderError::TooLarge);
        },
    };
    assert(width * height <= 3 * width * height) by (nonlinear_arith);
    let total: usize = (width as usize) * (height as usize);
    let mut seen: Vec<bool> = Vec::new();
    while seen.len() < total
        invariant
            seen@.len() <= total,
            forall|k: int| 0 <= k < seen@.len() ==> !seen@[k],
        decreases total - seen@.len(),
    {
        seen.push(false);
    }
    let mut fault: Option<RenderError> = None;
    let mut c: usize = 0;
    assert(columns@.take(0) == Seq::<Vec<Sample>>::empty());
    while c < columns.len()
        invariant
            c <= columns@.len(),
            width > 0,
            height > 0,
            fits(width as nat, height as nat),
            frame@.width == width,
            frame@.height == height,
            fault == first_fault(samples_of(columns@.take(c as int)), width as nat, height as nat),
            fault is None ==> frame@ == paint_all(
                blank(width as nat, height as nat),
                samples_of(columns@.take(c as int)),
                iterations as nat,
            ),
            fault is None ==> seen_matches(
                seen@,
                samples_of(columns@.take(c as int)),
                width as nat,
                height as nat,
            ),
        decreases columns@.len() - c,
    {
        let ghost done = samples_of(columns@.take(c as int));
        proof {
            let next = columns@.take(c + 1);
            assert(next.drop_last() == columns@.take(c as int));
            assert(next.last() == columns@[c as int]);
            assert(samples_of(next) == done + columns@[c as int]@);
            assert(done.is_prefix_of(done + columns@[c as int]@));
            if fault is Some {
                lemma_first_fault_persists(
                    done,
                    done + columns@[c as int]@,
                    width as nat,
                    height as nat,
                );
            }
            lemma_paint_all_concat(
                blank(width as nat, height as nat),
                done,
                columns@[c as int]@,
                iterations as nat,
            );
        }
        if fault.is_none() {
            match paint_column(&mut frame, &mut seen, &columns[c], iterations, Ghost(done)) {
                Ok(()) => {},
                Err(error) => {
                    fault = Some(error);
                },
            }
        }
        c += 1;
    }
    assert(columns@.take(c as int) == columns@);
    match fault {
        Some(error) => Err(error),
        None => match find_missing(&seen, width, height, Ghost(samples_of(columns@))) {
            Some(error) => Err(error),
            None => {
                proof {
                    lemma_frame_is_full(
                        width as nat,
                        height as nat,
                        iterations as nat,
                        samples_of(columns@),
                    );
                }
                Ok(frame)
            },
        },
    }
}

/// What is wrong with a sample of a run depends on the run up to that
/// sample only.
proof fn lemma_fault_in_prefix(
    samples: Seq<Sample>,
    longer: Seq<Sample>,
    i: int,
    width: nat,
    height: nat,
)
    requires
        samples.is_prefix_of(longer),
        0 <= i < samples.len(),
    ensures
        fault_at(longer, i, width, height) == fault_at(samples, i, width, height),
{
    assert(forall|j: int| 0 <= j <= i ==> longer[j] == samples[j]);
    if named_before(samples, i) {
        let j = choose|j: int|
            0 <= j < i && position(#[trigger] samples[j]) == position(samples[i]);
        assert(longer[j] == samples[j]);
    }
    if named_before(longer, i) {
        let j = choose|j: int| 0 <= j < i && position(#[trigger] longer[j]) == position(longer[i]);
        assert(samples[j] == longer[j]);
    }
}

/// Nothing is wrong with a run of samples exactly if nothing is wrong with
/// any of them.
pub proof fn lemma_sound_run(samples: Seq<Sample>, width: nat, height: nat)
    ensures
        first_fault(samples, width, height) is None <==> forall|i: int|
            0 <= i < samples.len() ==> (#[trigger] fault_at(samples, i, width, height)) is None,
    decreases samples.len(),
{
    if samples.len() > 0 {
        let front = samples.drop_last();
        assert(front.is_prefix_of(samples));
        lemma_sound_run(front, width, height);
        if first_fault(samples, width, height) is None {
            assert forall|i: int| 0 <= i < samples.len() implies (#[trigger] fault_at(
                samples,
                i,
                width,
                height,
            )) is None by {
                if i < front.len() {
                    lemma_fault_in_prefix(front, samples, i, width, height);
                }
            }
        } else {
            if first_fault(front, width, height) is Some {
                let i = choose|i: int|
                    0 <= i < front.len() && (#[trigger] fault_at(front, i, width, height))
                        is Some;
                lemma_fault_in_prefix(front, samples, i, width, height);
                assert(fault_at(samples, i, width, height) is Some);
            } else {
                assert(fault_at(samples, samples.len() - 1, width, height) is Some);
            }
        }
    }
}

/// Colouring keeps the size of the frame, and its pixels where every sample
/// names one of them.
proof fn lemma_paint_keeps_shape(frame: FrameView, samples: Seq<Sample>, iterations: nat)
    ensures
        paint_all(frame, samples, iterations).width == frame.width,
        paint_all(frame, samples, iterations).height == frame.height,
        (forall|i: int|
            0 <= i < samples.len() ==> frame.pixels.dom().contains(position(#[trigger] samples[i])))
            ==> paint_all(frame, samples, iterations).pixels.dom() =~= frame.pixels.dom(),
    decreases samples.len(),
{
    if samples.len() > 0 {
        let front = samples.drop_last();
        lemma_paint_keeps_shape(frame, front, iterations);
        if forall|i: int|
            0 <= i < samples.len() ==> frame.pixels.dom().contains(position(#[trigger] samples[i])) {
            assert forall|i: int| 0 <= i < front.len() implies frame.pixels.dom().contains(
                position(#[trigger] front[i]),
            ) by {
                assert(front[i] == samples[i]);
            }
            assert(frame.pixels.dom().contains(position(samples[samples.len() - 1])));
        }
    }
}

/// A sample after which no other names the same pixel decides that pixel.
proof fn lemma_painted_pixel(frame: FrameView, samples: Seq<Sample>, iterations: nat, i: int)
    requires
        0 <= i < samples.len(),
        forall|j: int| i < j < samples.len() ==> position(#[trigger] samples[j]) != position(samples[i]),
    ensures
        paint_all(frame, samples, iterations).pixels.dom().contains(position(samples[i])),
        paint_all(frame, samples, iterations).pixels[position(samples[i])] == sample_color(
            samples[i],
            iterations,
        ),
    decreases samples.len(),
{
    let front = samples.drop_last();
    if i < samples.len() - 1 {
        assert(front[i] == samples[i]);
        assert forall|j: int| i < j < front.len() implies position(#[trigger] front[j])
            != position(front[i]) by {
            assert(front[j] == samples[j]);
        }
        lemma_painted_pixel(frame, front, iterations, i);
        assert(position(samples[samples.len() - 1]) != position(samples[i]));
    }
}

/// Where a frame is made, the samples name each of its pixels exactly once,
/// and each of them is classified.
pub proof fn lemma_frame_is_full(width: nat, height: nat, iterations: nat, samples: Seq<Sample>)
    requires
        render_outcome(width, height, iterations, samples) is Ok,
    ensures
        names_each_pixel_once(samples, width, height),
        forall|i: int| 0 <= i < samples.len() ==> (#[trigger] samples[i]).status is Finished,
{
    lemma_sound_run(samples, width, height);
    assert forall|i: int, j: int| 0 <= i < j < samples.len() implies position(
        #[trigger] samples[i],
    ) != position(#[trigger] samples[j]) by {
        assert(fault_at(samples, j, width, height) is None);
        assert(!named_before(samples, j));
    }
    assert forall|i: int| 0 <= i < samples.len() implies (#[trigger] samples[i]).x < width
        && samples[i].y < height && samples[i].status is Finished by {
        assert(fault_at(samples, i, width, height) is None);
    }
    assert forall|x: int, y: int| 0 <= x < width && 0 <= y < height implies names(
        samples,
        (x, y),
    ) by {
        lemma_pixel_number(x, y, width, height);
        if !names(samples, (x, y)) {
            lemma_first_missing_exists(samples, width, height, x * height + y);
        }
    }
}

/// The frame has the size asked for, and its pixels are the positions inside.
pub proof fn lemma_frame_shape(width: nat, height: nat, iterations: nat, samples: Seq<Sample>)
    requires
        render_outcome(width, height, iterations, samples) is Ok,
    ensures
        render_outcome(width, height, iterations, samples)->Ok_0.width == width,
        render_outcome(width, height, iterations, samples)->Ok_0.height == height,
        forall|x: int, y: int|
            render_outcome(width, height, iterations, samples)->Ok_0.pixels.dom().contains((x, y))
                <==> 0 <= x < width && 0 <= y < height,
{
    let start = blank(width, height);
    lemma_frame_is_full(width, height, iterations, samples);
    assert forall|i: int| 0 <= i < samples.len() implies start.pixels.dom().contains(
        position(#[trigger] samples[i]),
    ) by {
        assert(samples[i].x < width && samples[i].y < height);
    }
    lemma_paint_keeps_shape(start, samples, iterations);
}

/// Every sample of a frame that is made gives the pixel it names the
/// colour of its classification.
pub proof fn lemma_pixel_is_its_sample(
    width: nat,
    height: nat,
    iterations: nat,
    samples: Seq<Sample>,
    i: int,
)
    requires
        render_outcome(width, height, iterations, samples) is Ok,
        0 <= i < samples.len(),
    ensures
        samples[i].status is Finished,
        render_outcome(width, height, iterations, samples)->Ok_0.pixels[position(samples[i])]
            == result_color(samples[i].status->Finished_0, iterations),
{
    lemma_frame_is_full(width, height, iterations, samples);
    lemma_painted_pixel(blank(width, height), samples, iterations, i);
}

/// Two runs that hold the same samples name the same pixels.
proof fn lemma_same_samples_same_names(a: Seq<Sample>, b: Seq<Sample>, pixel: (int, int))
    requires
        same_samples(a, b),
    ensures
        names(a, pixel) == names(b, pixel),
{
    if names(a, pixel) {
        let i = choose|i: int| 0 <= i < a.len() && position(#[trigger] a[i]) == pixel;
        assert(a.contains(a[i]));
        assert(b.contains(a[i]));
        let j = choose|j: int| 0 <= j < b.len() && b[j] == a[i];
        assert(position(b[j]) == pixel);
    }
    if names(b, pixel) {
        let j = choose|j: int| 0 <= j < b.len() && position(#[trigger] b[j]) == pixel;
        assert(b.contains(b[j]));
        assert(a.contains(b[j]));
        let i = choose|i: int| 0 <= i < a.len() && a[i] == b[j];
        assert(position(a[i]) == pixel);
    }
}

/// Of two runs that hold the same samples, each naming no pixel twice, a
/// frame is made of the second if one is made of the first.
proof fn lemma_order_keeps_outcome(
    width: nat,
    height: nat,
    iterations: nat,
    a: Seq<Sample>,
    b: Seq<Sample>,
)
    requires
        same_samples(a, b),
        distinct_positions(b),
        render_outcome(width, height, iterations, a) is Ok,
    ensures
        render_outcome(width, height, iterations, b) is Ok,
{
    lemma_sound_run(a, width, height);
    lemma_sound_run(b, width, height);
    assert forall|j: int| 0 <= j < b.len() implies (#[trigger] fault_at(b, j, width, height))
        is None by {
        assert(b.contains(b[j]));
        assert(a.contains(b[j]));
        let i = choose|i: int| 0 <= i < a.len() && a[i] == b[j];
        assert(fault_at(a, i, width, height) is None);
        if named_before(b, j) {
            let earlier = choose|earlier: int|
                0 <= earlier < j && position(#[trigger] b[earlier]) == position(b[j]);
            assert(position(b[earlier]) != position(b[j]));
        }
    }
    if missing_fault(b, width, height) is Some {
        let k = choose|k: int| is_first_missing(b, width, height, k);
        lemma_same_samples_same_names(a, b, pixel_at(k, height));
        lemma_first_missing_exists(a, width, height, k);
    }
}

/// The frame does not depend on the order of the samples: two runs that
/// hold the same samples, each naming no pixel twice, give a frame together
/// or not at all, and then the same frame.
pub proof fn lemma_order_of_samples_is_free(
    width: nat,
    height: nat,
    iterations: nat,
    a: Seq<Sample>,
    b: Seq<Sample>,
)
    requires
        same_samples(a, b),
        distinct_positions(a),
        distinct_positions(b),
    ensures
        render_outcome(width, height, iterations, a) is Ok <==> render_outcome(
            width,
            height,
            iterations,
            b,
        ) is Ok,
        render_outcome(width, height, iterations, a) is Ok ==> render_outcome(
            width,
            height,
            iterations,
            a,
        ) == render_outcome(width, height, iterations, b),
{
    if render_outcome(width, height, iterations, a) is Ok {
        lemma_order_keeps_outcome(width, height, iterations, a, b);
    }
    if render_outcome(width, height, iterations, b) is Ok {
        assert(same_samples(b, a));
        lemma_order_keeps_outcome(width, height, iterations, b, a);
    }
    if render_outcome(width, height, iterations, a) is Ok {
        let start = blank(width, height);
        let fa = paint_all(start, a, iterations);
        let fb = paint_all(start, b, iterations);
        lemma_frame_shape(width, height, iterations, a);
        lemma_frame_shape(width, height, iterations, b);
        lemma_frame_is_full(width, height, iterations, a);
        assert forall|pixel: (int, int)| fa.pixels.dom().contains(pixel) implies fa.pixels[pixel]
            == fb.pixels[pixel] by {
            let (x, y) = pixel;
            assert(fa.pixels.dom().contains((x, y)));
            assert(names(a, (x, y)));
            let i = choose|i: int| 0 <= i < a.len() && position(#[trigger] a[i]) == pixel;
            assert(a.contains(a[i]));
            assert(b.contains(a[i]));
            let j = choose|j: int| 0 <= j < b.len() && b[j] == a[i];
            lemma_painted_pixel(start, a, iterations, i);
            lemma_painted_pixel(start, b, iterations, j);
        }
        assert(fa.pixels.dom() =~= fb.pixels.dom()) by {
            assert forall|pixel: (int, int)| fa.pixels.dom().contains(pixel)
                == fb.pixels.dom().contains(pixel) by {
                let (x, y) = pixel;
                assert(fa.pixels.dom().contains((x, y)) <==> 0 <= x < width && 0 <= y < height);
                assert(fb.pixels.dom().contains((x, y)) <==> 0 <= x < width && 0 <= y < height);
            }
        }
        assert(fa.pixels =~= fb.pixels);
    }
}

/// Whether one of the columns holds exactly the samples `column`.
pub open spec fn holds_column(columns: Seq<Vec<Sample>>, column: Seq<Sample>) -> bool {
    exists|c: int| 0 <= c < columns.len() && (#[trigger] columns[c])@ == column
}

/// Whether two runs hold the same columns, in whatever order.
pub open spec fn same_columns(a: Seq<Vec<Sample>>, b: Seq<Vec<Sample>>) -> bool {
    forall|column: Seq<Sample>| holds_column(a, column) <==> holds_column(b, column)
}

/// The samples of a run of columns are the samples of its columns.
proof fn lemma_samples_come_from_columns(columns: Seq<Vec<Sample>>, sample: Sample)
    ensures
        samples_of(columns).contains(sample) <==> exists|c: int|
            0 <= c < columns.len() && (#[trigger] columns[c])@.contains(sample),
    decreases columns.len(),
{
    if columns.len() > 0 {
        let front = columns.drop_last();
        let last = columns.last()@;
        let before = samples_of(front);
        let all = samples_of(columns);
        lemma_samples_come_from_columns(front, sample);
        if all.contains(sample) {
            let i = choose|i: int| 0 <= i < all.len() && all[i] == sample;
            if i < before.len() {
                assert(before[i] == sample);
                let c = choose|c: int|
                    0 <= c < front.len() && (#[trigger] front[c])@.contains(sample);
                assert(columns[c] == front[c]);
            } else {
                assert(last[i - before.len()] == sample);
                assert(columns[columns.len() - 1]@.contains(sample));
            }
        }
        if exists|c: int| 0 <= c < columns.len() && (#[trigger] columns[c])@.contains(sample) {
            let c = choose|c: int|
                0 <= c < columns.len() && (#[trigger] columns[c])@.contains(sample);
            if c < front.len() {
                assert(front[c] == columns[c]);
                let i = choose|i: int| 0 <= i < before.len() && before[i] == sample;
                assert(all[i] == sample);
            } else {
                let j = choose|j: int| 0 <= j < last.len() && last[j] == sample;
                assert(all[before.len() + j] == sample);
            }
        }
    }
}

/// The frame does not depend on the order of the columns: two runs that
/// hold the same columns, each naming no pixel twice, give a frame together
/// or not at all, and then the same frame.
pub proof fn lemma_order_of_columns_is_free(
    width: nat,
    height: nat,
    iterations: nat,
    a: Seq<Vec<Sample>>,
    b: Seq<Vec<Sample>>,
)
    requires
        same_columns(a, b),
        distinct_positions(samples_of(a)),
        distinct_positions(samples_of(b)),
    ensures
        render_outcome(width, height, iterations, samples_of(a)) is Ok <==> render_outcome(
            width,
            height,
            iterations,
            samples_of(b),
        ) is Ok,
        render_outcome(width, height, iterations, samples_of(a)) is Ok ==> render_outcome(
            width,
            height,
            iterations,
            samples_of(a),
        ) == render_outcome(width, height, iterations, samples_of(b)),
{
    assert forall|sample: Sample| samples_of(a).contains(sample) <==> samples_of(b).contains(
        sample,
    ) by {
        lemma_samples_come_from_columns(a, sample);
        lemma_samples_come_from_columns(b, sample);
        if samples_of(a).contains(sample) {
            let c = choose|c: int| 0 <= c < a.len() && (#[trigger] a[c])@.contains(sample);
            assert(holds_column(a, a[c]@));
            assert(holds_column(b, a[c]@));
            let d = choose|d: int| 0 <= d < b.len() && (#[trigger] b[d])@ == a[c]@;
            assert(b[d]@.contains(sample));
        }
        if samples_of(b).contains(sample) {
            let d = choose|d: int| 0 <= d < b.len() && (#[trigger] b[d])@.contains(sample);
            assert(holds_column(b, b[d]@));
            assert(holds_column(a, b[d]@));
            let c = choose|c: int| 0 <= c < a.len() && (#[trigger] a[c])@ == b[d]@;
            assert(a[c]@.contains(sample));
        }
    }
    lemma_order_of_samples_is_free(width, height, iterations, samples_of(a), samples_of(b));
}

/// Rasterizing is a function of its arguments: whatever it returns for the
/// same size, ceiling and samples is the same frame, or the same error.
pub proof fn lemma_rendering_is_determined(
    first: Result<Frame, RenderError>,
    second: Result<Frame, RenderError>,
    width: nat,
    height: nat,
    iterations: nat,
    samples: Seq<Sample>,
)
    requires
        is_rendering(first, width, height, iterations, samples),
        is_rendering(second, width, height, iterations, samples),
    ensures
        first is Ok <==> second is Ok,
        first is Ok ==> first->Ok_0@ == second->Ok_0@,
        first is Err ==> first->Err_0 == second->Err_0,
{
}

} // verus!
