//! Rules of a grid-based mine-clearing puzzle: a board of concealed cells,
//! reveal with cascade through mine-free regions, flags, chords and the
//! win check, together with the generator of the initial mine placement.

pub mod cascade;
pub mod cell;
pub mod error;
pub mod field;
pub mod generate;
pub mod grid;
pub mod input;
pub mod laws;
pub mod reach;
pub mod render;

pub use cell::{Cell, CellValue};
pub use error::MinesError;
pub use field::Field;
pub use generate::{
    add_mine, check_size, generate_cells, generate_placement, has_mine, lay_mines, mine_count,
};
pub use grid::{count_neighbours, do_with_neighbours, get_2d, get_2d_mut, min_coord, Probe};
pub use input::{Action, Prompt, Reply};
pub use render::{color_number, Face, Tint};
