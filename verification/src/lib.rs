//! A Minetest client core: the verified parts of the map renderer, the
//! media manager, the texture atlas builder and the network reactions.

pub mod pos;
pub mod schedule;
pub mod mesh;
pub mod image;
pub mod media;
pub mod texture;
pub mod atlas;
pub mod input;
pub mod net;
