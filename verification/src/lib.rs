//! Window placement engine.
//!
//! A short command names a screen, lays a grid over it and picks a range of
//! cells: `l21` is the right half of the leftmost screen. The engine reads
//! the command ([`command`]), brings the screens into one coordinate space
//! ([`coordinates`]), chooses the screen ([`screens`]), computes the
//! rectangle ([`grid`], in double precision: [`binary64`], [`double`]) and
//! sets it on a window until it has taken effect ([`placement`]). Beside
//! that it keeps the names of virtual desktops ([`spaces`]).
//!
//! The engine does no input or output of its own: screens come in as
//! values, and a window is reached through two functions that the caller
//! hands in.

pub mod binary64;
pub mod command;
pub mod coordinates;
pub mod double;
pub mod geometry;
pub mod grid;
pub mod placement;
pub mod screens;
pub mod spaces;
