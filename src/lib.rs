//! Mandelbrot-set membership over a pixel grid in fixed-point arithmetic,
//! with the block partitioning and work queue that spread it over workers.
pub mod fix;
pub mod escape;
pub mod block;
pub mod tiling;
pub mod queue;
