//! The decision kernel of a small ray tracer.
//!
//! Real numbers enter and leave as bit patterns (`scalar`). The library
//! chooses among roots and hits (`shapes`, `rays`), maps pixels to the view
//! plane (`rays`), packs colors and draws frames into the pixel buffer
//! (`render`, with the laws of drawing in `frame`), and turns key presses
//! into commands (`keyboard`).

pub mod frame;
pub mod keyboard;
pub mod rays;
pub mod render;
pub mod scalar;
pub mod shapes;
