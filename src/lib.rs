//! Rendering of a virtual DOM tree (elements, attributes and text) into markup.

pub mod attributes;
pub mod node;
pub mod render;
pub mod lemmas;
