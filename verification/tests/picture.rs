use mandelbrot::color::RgbColor;
use mandelbrot::picture::Frame;

#[test]
fn new_frame_is_black() {
    let frame = Frame::new(3, 2).unwrap();
    assert_eq!(frame.width(), 3);
    assert_eq!(frame.height(), 2);
    for x in 0..3 {
        for y in 0..2 {
            assert_eq!(frame.get_pixel(x, y), RgbColor { r: 0, g: 0, b: 0 });
        }
    }
    assert_eq!(frame.into_raw(), vec![0u8; 18]);
}

#[test]
fn empty_frames_exist() {
    assert_eq!(Frame::new(0, 5).unwrap().into_raw(), Vec::<u8>::new());
    assert_eq!(Frame::new(5, 0).unwrap().into_raw(), Vec::<u8>::new());
    let frame = Frame::new(0, 0).unwrap();
    assert_eq!((frame.width(), frame.height()), (0, 0));
}

#[test]
fn widest_empty_frame_depends_on_the_length_of_a_row() {
    let row_is_a_length = 3 * (u32::MAX as u128) <= usize::MAX as u128;
    let frame = Frame::new(u32::MAX, 0);
    assert_eq!(frame.is_some(), row_is_a_length);
    if let Some(frame) = frame {
        assert_eq!((frame.width(), frame.height()), (u32::MAX, 0));
        assert_eq!(frame.into_raw(), Vec::<u8>::new());
    }
    let frame = Frame::new(0, u32::MAX).unwrap();
    assert_eq!((frame.width(), frame.height()), (0, u32::MAX));
}

#[test]
fn frame_that_does_not_fit_is_refused() {
    assert!(Frame::new(u32::MAX, u32::MAX).is_none());
    assert!(Frame::new(u32::MAX, 0x8000_0000).is_none());
}

#[test]
fn put_pixel_changes_one_pixel() {
    let mut frame = Frame::new(3, 2).unwrap();
    let colour = RgbColor { r: 1, g: 2, b: 3 };
    frame.put_pixel(2, 1, colour);
    for x in 0..3 {
        for y in 0..2 {
            let expected = if (x, y) == (2, 1) { colour } else { RgbColor { r: 0, g: 0, b: 0 } };
            assert_eq!(frame.get_pixel(x, y), expected);
        }
    }
    assert_eq!((frame.width(), frame.height()), (3, 2));
}

#[test]
fn later_put_wins() {
    let mut frame = Frame::new(1, 1).unwrap();
    frame.put_pixel(0, 0, RgbColor { r: 1, g: 2, b: 3 });
    frame.put_pixel(0, 0, RgbColor { r: 4, g: 5, b: 6 });
    assert_eq!(frame.get_pixel(0, 0), RgbColor { r: 4, g: 5, b: 6 });
}

#[test]
fn raw_bytes_run_row_by_row_blue_first() {
    let mut frame = Frame::new(2, 3).unwrap();
    frame.put_pixel(1, 2, RgbColor { r: 1, g: 2, b: 3 });
    frame.put_pixel(0, 1, RgbColor { r: 10, g: 20, b: 30 });
    let raw = frame.into_raw();
    assert_eq!(raw.len(), 18);
    let mut expected = vec![0u8; 18];
    expected[3 * (2 * 2 + 1)] = 3;
    expected[3 * (2 * 2 + 1) + 1] = 2;
    expected[3 * (2 * 2 + 1) + 2] = 1;
    expected[3 * (1 * 2)] = 30;
    expected[3 * (1 * 2) + 1] = 20;
    expected[3 * (1 * 2) + 2] = 10;
    assert_eq!(raw, expected);
}

#[test]
fn raw_bytes_make_the_same_picture_again() {
    let mut frame = Frame::new(4, 3).unwrap();
    for x in 0..4u32 {
        for y in 0..3u32 {
            frame.put_pixel(x, y, RgbColor { r: x as u8, g: y as u8, b: (10 * x + y) as u8 });
        }
    }
    let picture = image::RgbImage::from_raw(4, 3, frame.into_raw()).unwrap();
    for x in 0..4u32 {
        for y in 0..3u32 {
            assert_eq!(picture.get_pixel(x, y).0, [(10 * x + y) as u8, y as u8, x as u8]);
        }
    }
}
