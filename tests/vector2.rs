use mandelbrot_rs::vector2::Vector2;

#[test]
fn display() {
    let a: Vector2<u8> = Vector2 { x: 3, y: 7 };
    assert_eq!(a.to_string(), "(3, 7)");
}

#[test]
fn eq() {
    let a: Vector2<u8> = Vector2 { x: 3, y: 7 };
    let b: Vector2<u8> = Vector2 { x: 3, y: 7 };
    assert_eq!(a, b)
}

#[test]
fn ne() {
    let a: Vector2<u8> = Vector2 { x: 3, y: 7 };
    let b: Vector2<u8> = Vector2 { x: 4, y: 7 };
    assert_ne!(a, b)
}

#[test]
fn display_zero_and_multi_digit() {
    let a: Vector2<u8> = Vector2 { x: 0, y: 255 };
    assert_eq!(a.to_string(), "(0, 255)");
    let b: Vector2<u8> = Vector2 { x: 10, y: 100 };
    assert_eq!(b.to_string(), "(10, 100)");
}

#[test]
fn display_u32_pixel() {
    let p: Vector2<u32> = Vector2 { x: 1023, y: 4294967295 };
    assert_eq!(p.to_string(), "(1023, 4294967295)");
}

#[test]
fn float_components_compare() {
    let a: Vector2<f32> = Vector2 { x: -0.765, y: 0.0 };
    let b: Vector2<f32> = Vector2 { x: -0.765, y: 0.0 };
    assert_eq!(a, b);
}
