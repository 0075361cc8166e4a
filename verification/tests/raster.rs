use mandelbrot::color::{map_num_to_color, RgbColor};
use mandelbrot::escape::{Evaluator, IterationResult, Observation, StateKey, Status};
use mandelbrot::raster::{generate_mandelbrot, RenderError, Sample};
use num_complex::Complex;
use num_traits::MulAddAssign;
use rayon::iter::{IndexedParallelIterator, IntoParallelIterator, ParallelIterator};

const BLACK: RgbColor = RgbColor { r: 0, g: 0, b: 0 };

fn status_of_point(c: Complex<f64>, ceiling: u32) -> Status {
    let mut evaluator = Evaluator::new(ceiling);
    let mut z = Complex::new(0.0, 0.0);
    loop {
        match evaluator.status() {
            Status::Pending => {
                z.mul_add_assign(z, c);
                let observation = if !z.re.is_finite() || !z.im.is_finite() {
                    Observation::Undefined
                } else {
                    Observation::Point {
                        key: StateKey { re: (z.re + 0.0).to_bits(), im: (z.im + 0.0).to_bits() },
                        escaped: z.norm_sqr() > 400.0,
                    }
                };
                evaluator.observe(observation);
            }
            settled => return settled,
        }
    }
}

fn column_of(
    x: u32,
    width: u32,
    height: u32,
    ceiling: u32,
    upper_left: Complex<f64>,
    lower_right: Complex<f64>,
) -> Vec<Sample> {
    let section_width = (upper_left.re - lower_right.re).abs();
    let section_height = (upper_left.im - lower_right.im).abs();
    let mut column = Vec::new();
    for y in 0..height {
        let re = upper_left.re + (x as f64 / width as f64) * section_width;
        let im = upper_left.im + (y as f64 / width as f64) * section_height;
        column.push(Sample { x, y, status: status_of_point(Complex::new(re, im), ceiling) });
    }
    column
}

fn columns_of(
    width: u32,
    height: u32,
    ceiling: u32,
    upper_left: Complex<f64>,
    lower_right: Complex<f64>,
) -> Vec<Vec<Sample>> {
    (0..width).map(|x| column_of(x, width, height, ceiling, upper_left, lower_right)).collect()
}

fn columns_in_parallel(
    workers: usize,
    width: u32,
    height: u32,
    ceiling: u32,
    upper_left: Complex<f64>,
    lower_right: Complex<f64>,
) -> Vec<Vec<Sample>> {
    let pool = rayon::ThreadPoolBuilder::new().num_threads(workers).build().unwrap();
    let mut columns: Vec<Vec<Sample>> = vec![];
    pool.install(|| {
        (0..width)
            .into_par_iter()
            .map(|x| column_of(x, width, height, ceiling, upper_left, lower_right))
            .collect_into_vec(&mut columns)
    });
    columns
}

fn escape_count(c: Complex<f64>, iterations: u32) -> u32 {
    let mut z: Complex<f64> = Complex::new(0.0, 0.0);
    let mut seen: Vec<Complex<f64>> = Vec::new();
    for i in 0..iterations {
        z.mul_add_assign(z, c);
        if seen.contains(&z) {
            return iterations;
        }
        if z.norm_sqr() > 400.0 {
            return i;
        }
        seen.push(z);
    }
    iterations
}

fn diverged(x: u32, y: u32, at: u32) -> Sample {
    Sample { x, y, status: Status::Finished(IterationResult::Diverged(at)) }
}

#[test]
fn four_by_four_scenario() {
    let upper_left = Complex::new(-1.0, -1.0);
    let lower_right = Complex::new(1.0, 1.0);
    let columns = columns_of(4, 4, 50, upper_left, lower_right);
    let frame = generate_mandelbrot(4, 4, 50, &columns).unwrap();
    assert_eq!((frame.width(), frame.height()), (4, 4));
    assert_eq!(frame.get_pixel(2, 2), BLACK);
    assert_ne!(frame.get_pixel(0, 0), BLACK);
    assert_ne!(frame.get_pixel(3, 0), BLACK);
    assert_ne!(frame.get_pixel(0, 3), BLACK);
    assert_ne!(frame.get_pixel(3, 3), BLACK);
    assert_eq!(frame.get_pixel(0, 0), RgbColor { r: 62, g: 0, b: 0 });
}

#[test]
fn frame_agrees_with_the_plain_loop() {
    let upper_left = Complex::new(-2.0, -1.25);
    let lower_right = Complex::new(0.5, 1.25);
    let (width, height, iterations) = (40u32, 40u32, 120u32);
    let columns = columns_of(width, height, iterations, upper_left, lower_right);
    let frame = generate_mandelbrot(width, height, iterations, &columns).unwrap();
    let mut interior = 0;
    for x in 0..width {
        for y in 0..height {
            let re = upper_left.re + (x as f64 / width as f64) * 2.5;
            let im = upper_left.im + (y as f64 / width as f64) * 2.5;
            let count = escape_count(Complex::new(re, im), iterations);
            if count == iterations {
                interior += 1;
            }
            assert_eq!(frame.get_pixel(x, y), map_num_to_color(count, iterations));
        }
    }
    assert!(interior > 100 && interior < 1500);
}

#[test]
fn window_corners_in_either_order() {
    let a = columns_of(4, 4, 50, Complex::new(-1.0, -1.0), Complex::new(1.0, 1.0));
    let b = columns_of(4, 4, 50, Complex::new(-1.0, -1.0), Complex::new(-3.0, -3.0));
    let first = generate_mandelbrot(4, 4, 50, &a).unwrap().into_raw();
    let second = generate_mandelbrot(4, 4, 50, &b).unwrap().into_raw();
    assert_eq!(first, second);
}

#[test]
fn rasterizing_twice_gives_the_same_frame() {
    let upper_left = Complex::new(-2.0, -1.5);
    let lower_right = Complex::new(1.0, 1.5);
    let first = generate_mandelbrot(16, 12, 80, &columns_of(16, 12, 80, upper_left, lower_right));
    let second = generate_mandelbrot(16, 12, 80, &columns_of(16, 12, 80, upper_left, lower_right));
    let first = first.unwrap().into_raw();
    assert_eq!(first.len(), 16 * 12 * 3);
    assert_eq!(first, second.unwrap().into_raw());
}

#[test]
fn worker_count_does_not_matter() {
    let upper_left = Complex::new(-2.0, -1.5);
    let lower_right = Complex::new(1.0, 1.5);
    let sequential = columns_of(24, 16, 60, upper_left, lower_right);
    let expected = generate_mandelbrot(24, 16, 60, &sequential).unwrap().into_raw();
    for workers in [1usize, 2, 3, 8] {
        let columns = columns_in_parallel(workers, 24, 16, 60, upper_left, lower_right);
        assert_eq!(columns, sequential);
        assert_eq!(generate_mandelbrot(24, 16, 60, &columns).unwrap().into_raw(), expected);
    }
}

#[test]
fn column_order_does_not_matter() {
    let upper_left = Complex::new(-2.0, -1.5);
    let lower_right = Complex::new(1.0, 1.5);
    let columns = columns_of(8, 8, 60, upper_left, lower_right);
    let mut reversed = columns.clone();
    reversed.reverse();
    let mut rotated = columns.clone();
    rotated.rotate_left(3);
    rotated.swap(0, 5);
    let mut rows_reversed = columns.clone();
    for column in rows_reversed.iter_mut() {
        column.reverse();
    }
    let expected = generate_mandelbrot(8, 8, 60, &columns).unwrap().into_raw();
    assert_eq!(generate_mandelbrot(8, 8, 60, &reversed).unwrap().into_raw(), expected);
    assert_eq!(generate_mandelbrot(8, 8, 60, &rotated).unwrap().into_raw(), expected);
    assert_eq!(generate_mandelbrot(8, 8, 60, &rows_reversed).unwrap().into_raw(), expected);
}

#[test]
fn each_pixel_has_the_colour_of_its_sample() {
    let columns = vec![
        vec![diverged(0, 0, 10), diverged(0, 1, 25)],
        vec![
            Sample { x: 1, y: 0, status: Status::Finished(IterationResult::Bounded) },
            diverged(1, 1, 40),
        ],
        vec![
            diverged(2, 0, 1),
            Sample { x: 2, y: 1, status: Status::Finished(IterationResult::Cyclic) },
        ],
    ];
    let frame = generate_mandelbrot(3, 2, 50, &columns).unwrap();
    assert_eq!(frame.get_pixel(0, 0), RgbColor { r: 153, g: 0, b: 0 });
    assert_eq!(frame.get_pixel(0, 1), RgbColor { r: 255, g: 127, b: 0 });
    assert_eq!(frame.get_pixel(1, 0), BLACK);
    assert_eq!(frame.get_pixel(1, 1), RgbColor { r: 255, g: 255, b: 102 });
    assert_eq!(frame.get_pixel(2, 0), RgbColor { r: 16, g: 0, b: 0 });
    assert_eq!(frame.get_pixel(2, 1), BLACK);
}

#[test]
fn pixel_without_a_sample_is_refused() {
    assert_eq!(
        generate_mandelbrot(2, 2, 50, &vec![]).err(),
        Some(RenderError::Missing { x: 0, y: 0 })
    );
    assert_eq!(
        generate_mandelbrot(2, 2, 50, &vec![vec![], vec![]]).err(),
        Some(RenderError::Missing { x: 0, y: 0 })
    );
    let last_only = vec![vec![diverged(1, 1, 25)]];
    assert_eq!(
        generate_mandelbrot(2, 2, 50, &last_only).err(),
        Some(RenderError::Missing { x: 0, y: 0 })
    );
    let without_second = vec![vec![diverged(0, 0, 1)], vec![diverged(1, 0, 1), diverged(1, 1, 1)]];
    assert_eq!(
        generate_mandelbrot(2, 2, 50, &without_second).err(),
        Some(RenderError::Missing { x: 0, y: 1 })
    );
    let without_last = vec![vec![diverged(0, 0, 1), diverged(0, 1, 1), diverged(0, 2, 1)], vec![
        diverged(1, 0, 1),
        diverged(1, 1, 1),
    ]];
    assert_eq!(
        generate_mandelbrot(2, 3, 50, &without_last).err(),
        Some(RenderError::Missing { x: 1, y: 2 })
    );
}

#[test]
fn pixel_named_twice_is_refused() {
    let same = vec![vec![diverged(0, 0, 10)], vec![diverged(0, 0, 10)]];
    assert_eq!(
        generate_mandelbrot(1, 1, 50, &same).err(),
        Some(RenderError::Duplicate { x: 0, y: 0 })
    );
    let other_colour = vec![vec![diverged(0, 0, 10), diverged(0, 1, 10), diverged(0, 0, 25)]];
    assert_eq!(
        generate_mandelbrot(1, 2, 50, &other_colour).err(),
        Some(RenderError::Duplicate { x: 0, y: 0 })
    );
    let twice_before_missing = vec![vec![diverged(1, 1, 10), diverged(1, 1, 10)]];
    assert_eq!(
        generate_mandelbrot(2, 2, 50, &twice_before_missing).err(),
        Some(RenderError::Duplicate { x: 1, y: 1 })
    );
    let undefined_second = vec![vec![
        diverged(0, 0, 10),
        Sample { x: 0, y: 0, status: Status::Failed(4) },
    ]];
    assert_eq!(
        generate_mandelbrot(1, 1, 50, &undefined_second).err(),
        Some(RenderError::NonFinite { x: 0, y: 0, iteration: 4 })
    );
}

#[test]
fn frame_of_one_pixel() {
    let frame = generate_mandelbrot(1, 1, 50, &vec![vec![diverged(0, 0, 25)]]).unwrap();
    assert_eq!((frame.width(), frame.height()), (1, 1));
    assert_eq!(frame.get_pixel(0, 0), RgbColor { r: 255, g: 127, b: 0 });
}

#[test]
fn tall_and_wide_frames_are_full() {
    let tall = columns_of(3, 7, 40, Complex::new(-2.0, -1.0), Complex::new(1.0, 1.0));
    let frame = generate_mandelbrot(3, 7, 40, &tall).unwrap();
    assert_eq!((frame.width(), frame.height()), (3, 7));
    for column in tall.iter() {
        for sample in column.iter() {
            match sample.status {
                Status::Finished(result) => {
                    assert_eq!(frame.get_pixel(sample.x, sample.y), result.color(40))
                }
                _ => panic!("a sample of a finite point is classified"),
            }
        }
    }
    let wide = columns_of(7, 3, 40, Complex::new(-2.0, -1.0), Complex::new(1.0, 1.0));
    assert!(generate_mandelbrot(7, 3, 40, &wide).is_ok());
    assert_eq!(generate_mandelbrot(3, 7, 40, &wide).err(), Some(RenderError::OutOfBounds { x: 3, y: 0 }));
    assert_eq!(generate_mandelbrot(7, 3, 40, &tall).err(), Some(RenderError::OutOfBounds { x: 0, y: 3 }));
}

#[test]
fn ceiling_one_frame() {
    let columns = columns_of(6, 6, 1, Complex::new(-30.0, -30.0), Complex::new(30.0, 30.0));
    for column in columns.iter() {
        for sample in column.iter() {
            assert!(
                sample.status == Status::Finished(IterationResult::Diverged(0))
                    || sample.status == Status::Finished(IterationResult::Bounded)
            );
        }
    }
    let frame = generate_mandelbrot(6, 6, 1, &columns).unwrap();
    for x in 0..6 {
        for y in 0..6 {
            assert_eq!(frame.get_pixel(x, y), BLACK);
        }
    }
}

#[test]
fn zero_sizes_and_ceiling_are_refused() {
    let columns = vec![vec![diverged(0, 0, 1)]];
    assert_eq!(generate_mandelbrot(0, 4, 50, &columns).err(), Some(RenderError::ZeroWidth));
    assert_eq!(generate_mandelbrot(0, 0, 0, &columns).err(), Some(RenderError::ZeroWidth));
    assert_eq!(generate_mandelbrot(4, 0, 50, &columns).err(), Some(RenderError::ZeroHeight));
    assert_eq!(generate_mandelbrot(4, 0, 0, &columns).err(), Some(RenderError::ZeroHeight));
    assert_eq!(generate_mandelbrot(4, 4, 0, &columns).err(), Some(RenderError::ZeroIterations));
}

#[test]
fn frame_that_does_not_fit_is_an_error() {
    let result = generate_mandelbrot(u32::MAX, u32::MAX, 50, &vec![]);
    assert_eq!(result.err(), Some(RenderError::TooLarge));
}

#[test]
fn sample_outside_the_frame_is_refused() {
    let wide = vec![vec![diverged(0, 0, 1), diverged(2, 0, 1)]];
    assert_eq!(
        generate_mandelbrot(2, 2, 50, &wide).err(),
        Some(RenderError::OutOfBounds { x: 2, y: 0 })
    );
    let tall = vec![vec![diverged(1, 2, 1)]];
    assert_eq!(
        generate_mandelbrot(2, 2, 50, &tall).err(),
        Some(RenderError::OutOfBounds { x: 1, y: 2 })
    );
}

#[test]
fn unfinished_sample_is_refused() {
    let columns = vec![vec![diverged(0, 0, 1)], vec![Sample { x: 1, y: 1, status: Status::Pending }]];
    assert_eq!(
        generate_mandelbrot(2, 2, 50, &columns).err(),
        Some(RenderError::Unfinished { x: 1, y: 1 })
    );
}

#[test]
fn undefined_point_fails_the_frame() {
    let columns = columns_of(2, 2, 50, Complex::new(f64::NAN, -1.0), Complex::new(1.0, 1.0));
    assert_eq!(
        generate_mandelbrot(2, 2, 50, &columns).err(),
        Some(RenderError::NonFinite { x: 0, y: 0, iteration: 0 })
    );
    let late = vec![vec![diverged(0, 0, 1), Sample { x: 0, y: 1, status: Status::Failed(7) }]];
    assert_eq!(
        generate_mandelbrot(2, 2, 50, &late).err(),
        Some(RenderError::NonFinite { x: 0, y: 1, iteration: 7 })
    );
}

#[test]
fn first_fault_is_returned() {
    let columns = vec![
        vec![diverged(0, 0, 1), Sample { x: 0, y: 1, status: Status::Pending }],
        vec![diverged(5, 5, 1), Sample { x: 1, y: 1, status: Status::Failed(3) }],
    ];
    assert_eq!(
        generate_mandelbrot(2, 2, 50, &columns).err(),
        Some(RenderError::Unfinished { x: 0, y: 1 })
    );
    let out_first = vec![vec![Sample { x: 9, y: 9, status: Status::Pending }]];
    assert_eq!(
        generate_mandelbrot(2, 2, 50, &out_first).err(),
        Some(RenderError::OutOfBounds { x: 9, y: 9 })
    );
}
