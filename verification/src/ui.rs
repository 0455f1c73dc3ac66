//! What the screen shows.

pub mod chrome;
pub mod color;
pub mod containment;
pub mod items;
pub mod label;
pub mod layout;
pub mod nested;
pub mod paint;
pub mod panel;
