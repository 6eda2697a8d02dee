//! Verified solvers for a set of grid, parsing and counting puzzles.

pub mod almanac;
pub mod boat_race;
pub mod camel_cards;
pub mod cubes;
pub mod engine_parts;
pub mod galaxies;
pub mod network;
pub mod oasis;
pub mod pattern;
pub mod pipe_enclosure;
pub mod pipe_expand;
pub mod pipe_grid;
pub mod pipe_laws;
pub mod pipe_route;
pub mod pipe_text;
pub mod pipe_trace;
pub mod range_map;
pub mod schematic;
pub mod scratchcards;
pub mod text;
pub mod trebuchet;
