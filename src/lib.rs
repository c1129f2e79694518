//! Point distributions inside regions given by signed distance fields: the
//! integer core of the library. Dense N-dimensional addressing, the cell
//! classification of a grid, the spatial hash used for neighbour queries and
//! the random choice of cells for sampling.
pub mod array;
pub mod grid;
pub mod sampler;
pub mod spatial;
pub mod utils;
