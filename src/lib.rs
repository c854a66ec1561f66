use vstd::prelude::*;

pub mod guarantees;
pub mod info;
pub mod packer;
pub mod rect;
pub mod spaces;

pub use crate::info::{ImageLayoutInfo, OutputData};
pub use crate::packer::{Layout, PackError, Packed, Packer, MAX_TEXTURE_SIZE};
pub use crate::rect::Rect;
pub use crate::spaces::Spaces;

verus! {

} // verus!
