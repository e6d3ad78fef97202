//! A small 2D game engine core: colours, an entity–component store,
//! an integer raster canvas with textures and a bitmap font, and the
//! keyboard / mouse state machine that drives a frame.

pub mod color;
pub mod ecs;
pub mod renderer;
pub mod components;
pub mod random;
pub mod input;
pub mod systems;

pub use color::Color as Col;
pub use components::Tag;
pub use ecs::{Entity, World as EcsWorld};
pub use input::{Input as InputState, Key, MouseButton};
pub use renderer::{Canvas as Cnv, Texture};
