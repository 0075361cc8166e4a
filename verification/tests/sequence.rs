use mandelbrot::sequence::{
    frame_file_name, shrink_exponent, ConfigError, FrameJob, SequenceParams, Sequencer, WindowStep,
};

fn params(start_frame: u32, end_frame: u32) -> SequenceParams {
    SequenceParams {
        start_frame,
        end_frame,
        image_size: 4,
        iterations: 50,
        shrink_in_range: true,
        path: String::from("./test_"),
    }
}

fn jobs_of(start_frame: u32, end_frame: u32) -> Vec<FrameJob> {
    let mut sequencer = Sequencer::new(params(start_frame, end_frame)).unwrap();
    let mut jobs = Vec::new();
    while let Some(job) = sequencer.next_job() {
        jobs.push(job);
    }
    assert!(sequencer.next_job().is_none());
    jobs
}

fn window_sizes(jobs: &[FrameJob], initial_size: f64, shrink: f32) -> Vec<f64> {
    let mut sizes = Vec::new();
    let mut size = initial_size;
    for job in jobs {
        size = match job.window {
            WindowStep::FromInitial { shrinks } => {
                initial_size * (1.0 - shrink).powi(shrink_exponent(shrinks)) as f64
            }
            WindowStep::FromPrevious => size * (1.0 - shrink) as f64,
        };
        sizes.push(size);
    }
    sizes
}

#[test]
fn file_names_hold_the_frame_in_decimal() {
    assert_eq!(frame_file_name("./test_", 0), "./test_frame_0.png");
    assert_eq!(frame_file_name("./test_", 7), "./test_frame_7.png");
    assert_eq!(frame_file_name("./test_", 10), "./test_frame_10.png");
    assert_eq!(frame_file_name("./test_", 109), "./test_frame_109.png");
    assert_eq!(frame_file_name("", 4_294_967_295), "frame_4294967295.png");
    assert_eq!(frame_file_name("out/é_", 1000), "out/é_frame_1000.png");
}

#[test]
fn file_names_agree_with_std_formatting() {
    for frame in (0u32..3000).chain([65_535, 99_999, 100_000, 1_000_000_000, u32::MAX]) {
        assert_eq!(frame_file_name("p", frame), format!("pframe_{}.png", frame));
    }
}

#[test]
fn frames_come_in_order() {
    let jobs = jobs_of(0, 3);
    assert_eq!(jobs.len(), 3);
    assert_eq!(jobs[0].frame, 0);
    assert_eq!(jobs[1].frame, 1);
    assert_eq!(jobs[2].frame, 2);
    assert_eq!(jobs[0].file_name, "./test_frame_0.png");
    assert_eq!(jobs[1].file_name, "./test_frame_1.png");
    assert_eq!(jobs[2].file_name, "./test_frame_2.png");
    assert_eq!(jobs[0].window, WindowStep::FromInitial { shrinks: 0 });
    assert_eq!(jobs[1].window, WindowStep::FromPrevious);
    assert_eq!(jobs[2].window, WindowStep::FromPrevious);
}

#[test]
fn resumed_run_starts_from_the_shrunk_window() {
    let jobs = jobs_of(2, 5);
    assert_eq!(jobs.len(), 3);
    assert_eq!(jobs[0].frame, 2);
    assert_eq!(jobs[0].window, WindowStep::FromInitial { shrinks: 2 });
    assert_eq!(jobs[1].window, WindowStep::FromPrevious);
    assert_eq!(jobs[2].frame, 4);
    assert_eq!(jobs[2].file_name, "./test_frame_4.png");
}

#[test]
fn resumed_frame_has_the_window_of_the_full_run() {
    let resumed = jobs_of(2, 3);
    let full = jobs_of(0, 3);
    assert_eq!(resumed.len(), 1);
    assert_eq!(resumed[0].frame, full[2].frame);
    assert_eq!(resumed[0].file_name, full[2].file_name);
    let resumed_size = window_sizes(&resumed, 1.0, 0.1)[0];
    let full_size = window_sizes(&full, 1.0, 0.1)[2];
    assert!((resumed_size - 0.81).abs() < 1e-6);
    assert!((resumed_size - full_size).abs() < 1e-6);
    let pivot = (-0.5f64, -0.5f64);
    let resumed_corner = (pivot.0 - resumed_size / 2.0, pivot.1 - resumed_size / 2.0);
    let full_corner = (pivot.0 - full_size / 2.0, pivot.1 - full_size / 2.0);
    assert!((resumed_corner.0 - full_corner.0).abs() < 1e-6);
    assert!((resumed_corner.1 - full_corner.1).abs() < 1e-6);
    assert!((resumed_corner.0 + 0.905).abs() < 1e-6);
}

#[test]
fn every_frame_is_shrunk_as_often_as_its_index() {
    for start in 0u32..6 {
        let jobs = jobs_of(start, 8);
        let mut shrinks = 0;
        for job in jobs.iter() {
            shrinks = match job.window {
                WindowStep::FromInitial { shrinks } => shrinks,
                WindowStep::FromPrevious => shrinks + 1,
            };
            assert_eq!(shrinks, job.frame);
        }
    }
}

#[test]
fn shrink_exponent_stops_at_the_largest() {
    assert_eq!(shrink_exponent(0), 0);
    assert_eq!(shrink_exponent(2), 2);
    assert_eq!(shrink_exponent(2_147_483_647), i32::MAX);
    assert_eq!(shrink_exponent(2_147_483_648), i32::MAX);
    assert_eq!(shrink_exponent(u32::MAX), i32::MAX);
}

#[test]
fn late_start_still_shrinks() {
    let jobs = jobs_of(u32::MAX - 1, u32::MAX);
    assert_eq!(jobs[0].window, WindowStep::FromInitial { shrinks: u32::MAX - 1 });
    let size = window_sizes(&jobs, 1.0, 0.1)[0];
    assert!(size >= 0.0 && size < 1e-30);
}

#[test]
fn last_frame_index_is_reached() {
    let jobs = jobs_of(u32::MAX - 2, u32::MAX);
    assert_eq!(jobs.len(), 2);
    assert_eq!(jobs[1].frame, u32::MAX - 1);
    assert_eq!(jobs[1].file_name, "./test_frame_4294967294.png");
}

#[test]
fn empty_frame_range_is_refused() {
    assert_eq!(Sequencer::new(params(3, 3)).err(), Some(ConfigError::EmptyFrameRange));
    assert_eq!(Sequencer::new(params(4, 3)).err(), Some(ConfigError::EmptyFrameRange));
}

#[test]
fn zero_image_size_is_refused() {
    let mut p = params(0, 1);
    p.image_size = 0;
    assert_eq!(Sequencer::new(p).err(), Some(ConfigError::ZeroImageSize));
}

#[test]
fn image_that_does_not_fit_is_refused() {
    let mut p = params(0, 1);
    p.image_size = u32::MAX;
    assert_eq!(Sequencer::new(p).err(), Some(ConfigError::ImageTooLarge));
}

#[test]
fn zero_ceiling_is_refused() {
    let mut p = params(0, 1);
    p.iterations = 0;
    assert_eq!(Sequencer::new(p).err(), Some(ConfigError::ZeroIterations));
}

#[test]
fn shrink_out_of_range_is_refused() {
    let mut p = params(0, 1);
    p.shrink_in_range = false;
    assert_eq!(Sequencer::new(p).err(), Some(ConfigError::ShrinkOutOfRange));
}

#[test]
fn faults_come_in_a_fixed_order() {
    let mut p = params(3, 3);
    p.shrink_in_range = false;
    assert_eq!(Sequencer::new(p).err(), Some(ConfigError::ShrinkOutOfRange));
    let mut p = params(3, 3);
    p.shrink_in_range = false;
    p.iterations = 0;
    assert_eq!(Sequencer::new(p).err(), Some(ConfigError::ZeroIterations));
    let mut p = params(3, 3);
    p.iterations = 0;
    p.image_size = 0;
    assert_eq!(Sequencer::new(p).err(), Some(ConfigError::ZeroImageSize));
}
