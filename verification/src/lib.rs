//! Grows a coloured region over a pixel grid. The growth starts from seed
//! points and spreads to touching cells, the colour moving by a small random
//! step from each cell to the next, until every cell has been painted. Which
//! pending point is painted next is the one thing that shapes the picture:
//! a random one, the newest, or the one with the least or greatest colour.
//!
//! - [`point`]: points and their order.
//! - [`random`]: what is asked of the random generator.
//! - [`color`]: the diffusion step of one colour channel.
//! - [`neighbours`]: the cells around a cell.
//! - [`pending`]: the queue of pending points and its four policies.
//! - [`grid`]: the mask of visited cells and the canvas.
//! - [`growth`]: what a finished growth is.
//! - [`consistency`]: what holds while a growth runs.
//! - [`engine`]: the growth itself, round by round or as a whole.
//! - [`text`], [`input`], [`seeds`]: reading sizes, positions and colours
//!   from text, and making seeds of them.

pub mod color;
pub mod consistency;
pub mod engine;
pub mod grid;
pub mod growth;
pub mod input;
pub mod neighbours;
pub mod pending;
pub mod point;
pub mod random;
pub mod seeds;
pub mod text;
