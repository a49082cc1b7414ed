pub mod fill;
pub mod grid;

pub use fill::flood_fill;
pub use grid::Grid;
pub use grid::GridError;
pub use grid::Tile;
