use vstd::prelude::*;

verus! {

/// Where one input image ended up: the texture it was drawn into, its corner
/// there, its own size and whether it stands turned.
#[derive(Debug)]
pub struct ImageLayoutInfo {
    pub name: String,
    pub texture: usize,
    pub position: [usize; 2],
    pub size: [usize; 2],
    pub rotated: bool,
}

impl ImageLayoutInfo {
    /// A record with an empty name and every number zero.
    pub fn empty() -> (r: Self)
        ensures
            r.name@ == Seq::<char>::empty(),
            r.texture == 0,
            r.position == [0usize, 0usize],
            r.size == [0usize, 0usize],
            !r.rotated,
    {
        ImageLayoutInfo {
            name: String::new(),
            texture: 0,
            position: [0, 0],
            size: [0, 0],
            rotated: false,
        }
    }
}

/// The layout of every image and the file name of every texture.
#[derive(Debug)]
pub struct OutputData {
    pub image_layouts: Vec<ImageLayoutInfo>,
    pub textures: Vec<String>,
}

} // verus!
