use mandelbrot_rs::scanline::{scanline, shade, BYTES_PER_PIXEL, DEFAULT_COLOR_THRESHOLD};

#[test]
fn shade_above_threshold_is_black() {
    assert_eq!(shade(31, 30), 0);
    assert_eq!(shade(100, 30), 0);
}

#[test]
fn shade_at_or_below_threshold_is_white() {
    assert_eq!(shade(30, 30), 255);
    assert_eq!(shade(0, 30), 255);
}

#[test]
fn default_threshold() {
    assert_eq!(DEFAULT_COLOR_THRESHOLD, 30);
    assert_eq!(BYTES_PER_PIXEL, 4);
}

#[test]
fn scanline_layout() {
    let counts: Vec<u16> = vec![100, 2, 31, 30];
    let row = scanline(&counts, DEFAULT_COLOR_THRESHOLD);
    assert_eq!(
        row,
        vec![0, 0, 0, 255, 255, 255, 255, 255, 0, 0, 0, 255, 255, 255, 255, 255]
    );
}

#[test]
fn scanline_empty_row() {
    let counts: Vec<u16> = Vec::new();
    assert!(scanline(&counts, 30).is_empty());
}

#[test]
fn scanline_other_threshold() {
    let counts: Vec<u16> = vec![40, 51];
    assert_eq!(scanline(&counts, 50), vec![255, 255, 255, 255, 0, 0, 0, 255]);
}
