//! Procedural generation of Mondrian-style layouts: a canvas is recursively
//! partitioned into axis-aligned rectangles by seeded pseudo-random guillotine
//! cuts, and a seeded second pass recolors a probabilistic subset of the
//! rectangles from a fixed four-color palette.

pub mod colorizer;
pub mod palette;
pub mod partition;
pub mod rect;
pub mod stream;

pub use colorizer::colorize;
pub use palette::PaletteColor;
pub use palette::SAMPLE_ONE;
pub use partition::MAX_CANVAS;
pub use partition::candidate_positions;
pub use partition::generate_partition;
pub use partition::generate_partition_with;
pub use partition::split_squares;
pub use rect::Rect;
pub use rect::split_on_x;
pub use rect::split_on_y;
