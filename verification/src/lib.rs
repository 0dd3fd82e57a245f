use vstd::prelude::*;

pub mod chunk;
pub mod common;
pub mod files;
pub mod pixel;
pub mod properties;
pub mod scan;
pub mod search;
pub mod store;
pub mod text;
pub mod tile;
pub mod ws;

verus! {

/// Side length, in pixels, of the square grid that each leaf holds.
pub const SIZE: usize = 256;

} // verus!
