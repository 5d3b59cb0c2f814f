//! A retained-mode UI scene engine: box-constraint layout solving, style
//! cascading over interaction states, hit-testing and redraw resolution.

pub mod arena;
pub mod axes;
pub mod colors;
pub mod compute;
pub mod dense;
pub mod direction;
pub mod dom;
pub mod errors;
pub mod fmt;
pub mod gap;
pub mod insets;
pub mod laws;
pub mod layout;
pub mod mouse;
pub mod num;
pub mod passes;
pub mod rect;
pub mod size;
pub mod styles;
pub mod tree;
