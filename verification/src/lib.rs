//! A deductive Sudoku engine: it fills a grid by sound elimination alone,
//! without guessing, running a battery of human-style techniques until the
//! grid is solved or nothing more follows.
//!
//! The board keeps a mask of candidates for every cell. Its two primitives,
//! placement and elimination, cascade: a cell left with one candidate is
//! solved, and its digit leaves its peers. The techniques read the board and
//! hand back what they find; the board strikes it.
//!
//! - [`bits`], [`grid`]: candidate masks, and the model of the board with
//!   the theory of cascades.
//! - [`board`], [`defaults`], [`misc`]: the board, its default geometry, its units.
//! - [`singles`], [`nakeds`], [`groups`], [`hiddens`], [`xwings`], [`ywings`],
//!   [`intersections`], [`colouring`], [`rectangles`]: the techniques.
//! - [`apply`], [`solve`]: striking what the techniques find, and the solver.
//! - [`sound`]: no technique strikes what a solution holds.
//! - [`puzzle`], [`format`]: boards from text and as text.

pub mod apply;
pub mod bits;
pub mod board;
pub mod colouring;
pub mod defaults;
pub mod findings;
pub mod format;
pub mod grid;
pub mod groups;
pub mod hiddens;
pub mod intersections;
pub mod misc;
pub mod nakeds;
pub mod puzzle;
pub mod rectangles;
pub mod singles;
pub mod solve;
pub mod sound;
pub mod xwings;
pub mod ywings;
