pub mod figure;
pub mod postscript;
pub mod template;

pub use figure::{closed, compose, open, Figure, Point};
