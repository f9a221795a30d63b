//! Frames of a sorting run: the colour model, the rasterizer that draws an
//! array as a bar chart, the state that records one frame per instrumented
//! step, the bounded queue that hands frames out for rendering, and the
//! instrumented sorting algorithms that drive all of it.

pub mod ratio;
pub mod color;
pub mod highlight;
pub mod codec;
pub mod render;
pub mod output;
pub mod state;
pub mod queue;
pub mod sorting;
