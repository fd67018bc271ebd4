//! The solving engine of a hex-grid path puzzle: edges drawn between hex cells,
//! a check that they form one continuous pass, and junction patterns along the
//! board's flanks.
pub mod bits;
pub mod cells;
pub mod geom;
pub mod levelselect;
pub mod puzzle;
