//! Building blocks for components.

pub mod select;
