use raytracer::canvas::{Canvas, Colour, Height, Pixel, Width, WriteError};

const ONE: i64 = 1_000_000;

#[test]
fn create_pixel() {
    let colour = Colour::new(250_000, 300_000, 750_000);
    let resulting_pixel = Pixel {
        red: 64,
        green: 77,
        blue: 191,
    };
    assert_eq!(Pixel::paint(colour), resulting_pixel)
}

#[test]
fn create_canvas() {
    let canvas = Canvas::new(Width(1), Height(2));
    let black_pixel = Pixel::paint(Colour::new(0, 0, 0));
    assert_eq!(canvas.width(), 1);
    assert_eq!(canvas.height(), 2);
    assert_eq!(canvas.pixel_at(0, 0), Some(black_pixel));
    assert_eq!(canvas.pixel_at(0, 1), Some(black_pixel));
    assert_eq!(canvas.pixel_at(1, 0), None);
    assert_eq!(canvas.pixel_at(0, 2), None);
}

#[test]
fn create_and_paint_canvas() {
    let mut canvas = Canvas::new(Width(2), Height(3));
    let black_pixel = Pixel::paint(Colour::new(0, 0, 0));
    let grey_colour = Colour::new(ONE / 2, ONE / 2, ONE / 2);
    let grey_pixel = Pixel::paint(Colour::new(ONE / 2, ONE / 2, ONE / 2));
    canvas.paint_colour(0, 1, grey_colour).unwrap();
    let resulting_canvas = vec![
        vec![black_pixel, black_pixel],
        vec![grey_pixel, black_pixel],
        vec![black_pixel, black_pixel],
    ];
    assert_eq!(canvas.width(), 2);
    assert_eq!(canvas.height(), 3);
    for (row, pixels) in resulting_canvas.iter().enumerate() {
        for (column, pixel) in pixels.iter().enumerate() {
            assert_eq!(canvas.pixel_at(column, row), Some(*pixel));
        }
    }
}

#[test]
fn write_ppm_small_canvas() {
    let mut canvas = Canvas::new(Width(2), Height(2));
    canvas.paint_colour(0, 0, Colour::new(ONE, ONE, ONE)).unwrap();
    canvas.paint_colour(1, 1, Colour::new(ONE / 2, ONE / 2, ONE / 2)).unwrap();
    let output_buffer = b"P3\n2 2\n255\n255 255 255 0 0 0\n0 0 0 128 128 128\n".to_vec();
    let written_buffer = canvas.write_to_ppm();
    assert_eq!(written_buffer, output_buffer);
}

#[test]
fn write_ppm_large_canvas() {
    let mut canvas = Canvas::new(Width(10), Height(2));
    for pixel in 0..10 {
        canvas.paint_colour(pixel, 0, Colour::new(ONE, ONE, ONE)).unwrap();
    }
    let output_buffer = b"P3\n10 2\n255\n255 255 255 255 255 255 255 255 255 255 255 255 255 255 255 255 255\n255 255 255 255 255 255 255 255 255 255 255 255 255\n0 0 0 0 0 0 0 0 0 0 0 0 0 0 0 0 0 0 0 0 0 0 0 0 0 0 0 0 0 0\n".to_vec();
    let written_buffer = canvas.write_to_ppm();
    assert_eq!(written_buffer, output_buffer);
}

#[test]
fn paint_clamps_channels() {
    let p = Pixel::paint(Colour::new(-5, ONE + 1, ONE));
    assert_eq!(p, Pixel { red: 0, green: 255, blue: 255 });
    let p = Pixel::paint(Colour::new(ONE / 2, 1_960, 1_961));
    assert_eq!(p, Pixel { red: 128, green: 0, blue: 1 });
}

#[test]
fn paint_outside_canvas_is_an_error() {
    let mut canvas = Canvas::new(Width(2), Height(2));
    assert_eq!(canvas.paint_colour(2, 0, Colour::new(ONE, 0, 0)), Err(WriteError::OutOfBounds));
    assert_eq!(canvas.paint_colour(0, 2, Colour::new(ONE, 0, 0)), Err(WriteError::OutOfBounds));
    assert_eq!(canvas.pixel_at(0, 0), Some(Pixel { red: 0, green: 0, blue: 0 }));
}

#[test]
fn write_ppm_empty_rows() {
    let canvas = Canvas::new(Width(0), Height(2));
    assert_eq!(canvas.write_to_ppm(), b"P3\n0 2\n255\n\n\n".to_vec());
    let canvas = Canvas::new(Width(3), Height(0));
    assert_eq!(canvas.write_to_ppm(), b"P3\n3 0\n255\n".to_vec());
}
