//! A small rendering engine: style resolution, box construction, layout and painting.
pub mod dom;
pub mod css;
pub mod style;
pub mod layout;
pub mod painting;
