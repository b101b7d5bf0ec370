//! Isometric tile maps: a text map format and its parser, the projection
//! between grid and screen space, the sprite lookup table built from a packed
//! atlas, and the renderer that turns a map into ordered sprite placements.

pub mod atlas;
pub mod iso;
pub mod map;
pub mod render;
