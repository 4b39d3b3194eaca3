//! A row-parallel Mandelbrot renderer: the integer side of it, verified.
//!
//! Floating-point work (mapping pixels into the complex plane and counting
//! escape-time iterations) happens outside this library; the library turns
//! iteration counts into pixels, decides which worker gets which row, and
//! assembles finished rows into a frame buffer.
pub mod coordinator;
pub mod frame;
pub mod scanline;
pub mod vector2;
