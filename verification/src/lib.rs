//! Software rendering and display compositing for targets without a GPU or a
//! windowing system: layered surfaces merged onto one pixel sink, and the
//! integer half of a small triangle pipeline.

pub mod bytes;
pub mod color;
pub mod display;
pub mod pipeline;
pub mod pixel;
pub mod style;
pub mod window;
