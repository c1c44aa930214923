//! A single-player grid puzzle engine: a rectangular board of cells, some of
//! which hide hazards. Revealing a cell whose surroundings are free of hazards
//! opens the whole connected free area around it; revealing a hazard loses the
//! session, and revealing every safe cell wins it.

pub mod board;
pub mod counts;
pub mod grid;
pub mod hazards;
pub mod open_area;
pub mod flood;
pub mod status;
