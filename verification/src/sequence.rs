//! The zoom sequence: which frames are rendered, in which order, with which
//! window and under which file name.
//!
//! The window of a sequence shrinks by a fixed factor from frame to frame.
//! Its size is a floating-point number and stays with the caller. The
//! sequencer says for each frame how the caller gets the window from the one
//! before, so that a run from a later frame shows what the full run shows.

use vstd::prelude::*;
use vstd::string::*;
use crate::picture::fits;

verus! {

/// The parameters of a zoom sequence, as far as they are whole numbers and
/// text.
#[derive(Debug)]
pub struct SequenceParams {
    /// The first frame to render.
    pub start_frame: u32,
    /// The frame before which rendering ends.
    pub end_frame: u32,
    /// The width and the height of each frame, in pixels.
    pub image_size: u32,
    /// The iteration ceiling.
    pub iterations: u32,
    /// Whether the shrink factor is at least 0 and less than 1.
    pub shrink_in_range: bool,
    /// What each file name begins with.
    pub path: String,
}

/// Why a sequence cannot be rendered.
#[derive(Clone, Copy, Debug, PartialEq, Eq, Structural)]
pub enum ConfigError {
    /// The frames would have no pixels.
    ZeroImageSize,
    /// A frame of this size does not fit in memory.
    ImageTooLarge,
    /// The iteration ceiling is zero.
    ZeroIterations,
    /// The shrink factor is below 0, or 1 or above.
    ShrinkOutOfRange,
    /// There is no frame from the first frame up to the end.
    EmptyFrameRange,
}

/// How the caller gets the window of a frame.
#[derive(Clone, Copy, Debug, PartialEq, Eq, Structural)]
pub enum WindowStep {
    /// The initial window, shrunk the given number of times.
    FromInitial { shrinks: u32 },
    /// The window of the frame before, shrunk once.
    FromPrevious,
}

/// One frame to render.
#[derive(Debug)]
pub struct FrameJob {
    /// The index of the frame.
    pub frame: u32,
    /// How its window is got.
    pub window: WindowStep,
    /// The name of the file it is written to.
    pub file_name: String,
}

/// What a frame job is.
pub struct FrameJobView {
    pub frame: nat,
    pub window: WindowStep,
    pub file_name: Seq<char>,
}

impl View for FrameJob {
    type V = FrameJobView;

    open spec fn view(&self) -> FrameJobView {
        FrameJobView { frame: self.frame as nat, window: self.window, file_name: self.file_name@ }
    }
}

/// The character of a decimal digit.
pub open spec fn digit_char(digit: nat) -> char
    recommends
        digit < 10,
{
    if digit == 0 {
        '0'
    } else if digit == 1 {
        '1'
    } else if digit == 2 {
        '2'
    } else if digit == 3 {
        '3'
    } else if digit == 4 {
        '4'
    } else if digit == 5 {
        '5'
    } else if digit == 6 {
        '6'
    } else if digit == 7 {
        '7'
    } else if digit == 8 {
        '8'
    } else {
        '9'
    }
}

/// A number in decimal digits, without leading zeros.
pub open spec fn decimal(n: nat) -> Seq<char>
    decreases n,
{
    if n < 10 {
        seq![digit_char(n)]
    } else {
        decimal(n / 10).push(digit_char(n % 10))
    }
}

/// The name of the file of a frame: the path, `frame_`, the index of the
/// frame in decimal digits, and `.png`.
pub open spec fn file_name_of(path: Seq<char>, frame: nat) -> Seq<char> {
    path + seq!['f', 'r', 'a', 'm', 'e', '_'] + decimal(frame) + seq!['.', 'p', 'n', 'g']
}

/// How the window of `frame` is got in a run that starts at frame `start`.
pub open spec fn window_step(start: nat, frame: nat) -> WindowStep {
    if frame == start {
        WindowStep::FromInitial { shrinks: start as u32 }
    } else {
        WindowStep::FromPrevious
    }
}

/// How often the initial window has been shrunk when `frame` is rendered in
/// a run that starts at frame `start`.
pub open spec fn shrinks_applied(start: nat, frame: nat) -> nat
    decreases frame,
{
    match window_step(start, frame) {
        WindowStep::FromInitial { shrinks } => shrinks as nat,
        WindowStep::FromPrevious => if frame == 0 {
            0
        } else {
            shrinks_applied(start, (frame - 1) as nat) + 1
        },
    }
}

/// The job of `frame` in a run that starts at frame `start`.
pub open spec fn job_of(start: nat, frame: nat, path: Seq<char>) -> FrameJobView {
    FrameJobView {
        frame,
        window: window_step(start, frame),
        file_name: file_name_of(path, frame),
    }
}

/// What is wrong with the parameters of a sequence, if anything.
pub open spec fn config_fault(params: SequenceParams) -> Option<ConfigError> {
    if params.image_size == 0 {
        Some(ConfigError::ZeroImageSize)
    } else if !fits(params.image_size as nat, params.image_size as nat) {
        Some(ConfigError::ImageTooLarge)
    } else if params.iterations == 0 {
        Some(ConfigError::ZeroIterations)
    } else if !params.shrink_in_range {
        Some(ConfigError::ShrinkOutOfRange)
    } else if params.start_frame >= params.end_frame {
        Some(ConfigError::EmptyFrameRange)
    } else {
        None
    }
}

/// The number of shrinks as an exponent of 32 bits with a sign: the number
/// itself where it is one, and the largest such exponent where it is not.
pub open spec fn exponent_of(shrinks: nat) -> int {
    if shrinks <= i32::MAX {
        shrinks as int
    } else {
        i32::MAX as int
    }
}

/// The exponent to which the caller raises one minus the shrink factor, to
/// shrink the initial window `shrinks` times.
pub fn shrink_exponent(shrinks: u32) -> (exponent: i32)
    ensures
        exponent == exponent_of(shrinks as nat),
{
    if shrinks <= 0x7fff_ffff {
        shrinks as i32
    } else {
        i32::MAX
    }
}

/// The text of one decimal digit.
fn digit_text(digit: u32) -> (text: &'static str)
    requires
        digit < 10,
    ensures
        text@ == seq![digit_char(digit as nat)],
{
    proof {
        reveal_strlit("0");
        reveal_strlit("1");
        reveal_strlit("2");
        reveal_strlit("3");
        reveal_strlit("4");
        reveal_strlit("5");
        reveal_strlit("6");
        reveal_strlit("7");
        reveal_strlit("8");
        reveal_strlit("9");
    }
    let text = match digit {
        0 => "0",
        1 => "1",
        2 => "2",
        3 => "3",
        4 => "4",
        5 => "5",
        6 => "6",
        7 => "7",
        8 => "8",
        _ => "9",
    };
    assert(text@ =~= seq![digit_char(digit as nat)]);
    text
}

/// Appends a number in decimal digits.
fn append_decimal(text: &mut String, n: u32)
    ensures
        final(text)@ == old(text)@ + decimal(n as nat),
    decreases n,
{
    if n >= 10 {
        append_decimal(text, n / 10);
    }
    text.append(digit_text(n % 10));
    assert(text@ =~= old(text)@ + decimal(n as nat));
}

/// The name of the file that a frame is written to.
pub fn frame_file_name(path: &str, frame: u32) -> (name: String)
    ensures
        name@ == file_name_of(path@, frame as nat),
{
    proof {
        reveal_strlit("frame_");
        reveal_strlit(".png");
    }
    let mut name = String::from_str(path);
    name.append("frame_");
    append_decimal(&mut name, frame);
    name.append(".png");
    assert(name@ =~= file_name_of(path@, frame as nat));
    name
}

/// What a sequencer is: the frame its run started at, the next frame to
/// render, the frame before which the run ends, and the path of the files.
pub struct SequencerView {
    pub start: nat,
    pub next: nat,
    pub end: nat,
    pub path: Seq<char>,
}

/// Hands out the frames of a zoom sequence one by one, in order.
pub struct Sequencer {
    start: u32,
    next: u32,
    end: u32,
    path: String,
}

impl View for Sequencer {
    type V = SequencerView;

    closed spec fn view(&self) -> SequencerView {
        SequencerView {
            start: self.start as nat,
            next: self.next as nat,
            end: self.end as nat,
            path: self.path@,
        }
    }
}

impl Sequencer {
    /// A sequencer at the first frame of the run, or what is wrong with the
    /// parameters.
    pub fn new(params: SequenceParams) -> (result: Result<Sequencer, ConfigError>)
        ensures
            match config_fault(params) {
                Some(error) => result == Err::<Sequencer, ConfigError>(error),
                None => result matches Ok(sequencer) && sequencer@ == (SequencerView {
                    start: params.start_frame as nat,
                    next: params.start_frame as nat,
                    end: params.end_frame as nat,
                    path: params.path@,
                }),
            },
    {
        if params.image_size == 0 {
            return Err(ConfigError::ZeroImageSize);
        }
        let side: u128 = params.image_size as u128;
        assert(side * side <= 0xffff_ffff * 0xffff_ffff) by (nonlinear_arith)
            requires
                side <= 0xffff_ffff,
        ;
        assert(3 * (side * side) == 3 * params.image_size * params.image_size)
            by (nonlinear_arith)
            requires
                side == params.image_size,
        ;
        if 3 * (side * side) > isize::MAX as u128 {
            return Err(ConfigError::ImageTooLarge);
        }
        assert(3 * side <= 3 * (side * side)) by (nonlinear_arith)
            requires
                side >= 1,
        ;
        if params.iterations == 0 {
            return Err(ConfigError::ZeroIterations);
        }
        if !params.shrink_in_range {
            return Err(ConfigError::ShrinkOutOfRange);
        }
        if params.start_frame >= params.end_frame {
            return Err(ConfigError::EmptyFrameRange);
        }
        Ok(
            Sequencer {
                start: params.start_frame,
                next: params.start_frame,
                end: params.end_frame,
                path: params.path,
            },
        )
    }

    /// The next frame to render, or `None` when the run is over.
    pub fn next_job(&mut self) -> (job: Option<FrameJob>)
        ensures
            old(self)@.next < old(self)@.end ==> (job matches Some(j) && j@ == job_of(
                old(self)@.start,
                old(self)@.next,
                old(self)@.path,
            )),
            old(self)@.next < old(self)@.end ==> final(self)@ == (SequencerView {
                next: old(self)@.next + 1,
                ..old(self)@
            }),
            old(self)@.next >= old(self)@.end ==> job is None && final(self)@ == old(self)@,
    {
        if self.next >= self.end {
            return None;
        }
        let frame: u32 = self.next;
        let window = if frame == self.start {
            WindowStep::FromInitial { shrinks: frame }
        } else {
            WindowStep::FromPrevious
        };
        let file_name = frame_file_name(self.path.as_str(), frame);
        self.next = frame + 1;
        Some(FrameJob { frame, window, file_name })
    }
}

/// In every run the window of a frame is the initial window shrunk as often
/// as the index of the frame says: a run from a later frame gives each frame
/// the window that the run from frame 0 gives it.
pub proof fn lemma_window_is_resumable(start: nat, frame: nat)
    requires
        start <= frame <= u32::MAX,
    ensures
        shrinks_applied(start, frame) == frame,
        shrinks_applied(start, frame) == shrinks_applied(0, frame),
    decreases frame,
{
    if frame > start {
        lemma_window_is_resumable(start, (frame - 1) as nat);
    }
    if frame > 0 {
        lemma_window_is_resumable(0, (frame - 1) as nat);
    }
}

/// The file of a frame does not depend on where the run started.
pub proof fn lemma_file_name_is_resumable(start: nat, frame: nat, path: Seq<char>)
    ensures
        job_of(start, frame, path).file_name == job_of(0, frame, path).file_name,
        job_of(start, frame, path).frame == job_of(0, frame, path).frame,
{
}

} // verus!
