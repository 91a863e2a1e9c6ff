//! The integer half of the triangle pipeline: colours, fragments, regions,
//! and the draw command that settles fragments into a buffer.

pub mod default;
pub mod drawing;
pub mod pipeline;
