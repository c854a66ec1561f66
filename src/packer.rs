use vstd::prelude::*;

use crate::rect::Rect;
use crate::spaces::{excluded, first_fit, lemma_first_fit, Spaces};

verus! {

/// The largest texture side the packer accepts.
pub const MAX_TEXTURE_SIZE: usize = 4096;

/// Packs images into textures of `texture_size`, leaving at least `spacing`
/// pixels right of and below each image, and turning images by a quarter turn
/// when `enable_rotate` is set and they fit no other way.
#[derive(Debug)]
pub struct Packer {
    pub texture_size: [usize; 2],
    pub spacing: usize,
    pub enable_rotate: bool,
}

/// Where image `index` went: its top-left corner inside its texture, and
/// whether it stands turned, taking `h × w` instead of `w × h`.
#[derive(Clone, Copy, Debug, PartialEq, Eq)]
pub struct Layout {
    pub index: usize,
    pub position: [usize; 2],
    pub rotated: bool,
}

/// One texture being filled: the images placed so far and its free space.
#[derive(Debug)]
pub struct Packed {
    pub layouts: Vec<Layout>,
    pub spaces: Spaces,
}

/// Why a call of `pack` was refused.
#[derive(Clone, Copy, Debug, PartialEq, Eq)]
pub enum PackError {
    /// A side of the texture is zero or larger than `MAX_TEXTURE_SIZE`.
    BadTextureSize { texture_size: [usize; 2] },
    /// The spacing is not smaller than both sides of the texture.
    SpacingTooLarge { spacing: usize, texture_size: [usize; 2] },
    /// Image `index` is wider or taller than the texture.
    ImageTooLarge { index: usize, size: [usize; 2], texture_size: [usize; 2] },
}

/// The layouts of each texture, as sequences.
pub open spec fn bins_view(v: Seq<Vec<Layout>>) -> Seq<Seq<Layout>> {
    v.map_values(|b: Vec<Layout>| b@)
}

/// The size that image `l.index` takes in its texture, turned if `l.rotated`.
pub open spec fn extent(l: Layout, sizes: Seq<[usize; 2]>) -> [usize; 2] {
    let s = sizes[l.index as int];
    if l.rotated {
        [s[1], s[0]]
    } else {
        s
    }
}

/// The area that the image of `l` covers.
pub open spec fn image_rect(l: Layout, sizes: Seq<[usize; 2]>) -> Rect {
    Rect { size: extent(l, sizes), position: l.position }
}

impl Packer {
    pub open spec fn width(&self) -> int {
        self.texture_size[0] as int
    }

    pub open spec fn height(&self) -> int {
        self.texture_size[1] as int
    }

    pub open spec fn texture_ok(&self) -> bool {
        1 <= self.width() <= MAX_TEXTURE_SIZE && 1 <= self.height() <= MAX_TEXTURE_SIZE
    }

    pub open spec fn spacing_ok(&self) -> bool {
        self.spacing < self.width() && self.spacing < self.height()
    }

    pub open spec fn valid(&self) -> bool {
        self.texture_ok() && self.spacing_ok()
    }

    /// An image of `size` fits the texture unturned.
    pub open spec fn fits_texture(&self, size: [usize; 2]) -> bool {
        size[0] <= self.width() && size[1] <= self.height()
    }

    /// Every image fits the texture unturned.
    pub open spec fn all_fit(&self, sizes: Seq<[usize; 2]>) -> bool {
        forall|i: int| 0 <= i < sizes.len() ==> self.fits_texture(#[trigger] sizes[i])
    }

    /// The whole texture.
    pub open spec fn texture(&self) -> Rect {
        Rect { size: self.texture_size, position: [0, 0] }
    }

    /// The free space of an empty texture.
    pub open spec fn fresh(&self) -> Seq<Rect> {
        seq![self.texture()]
    }

    /// A side `v` with spacing added, cut down to the texture's side `limit`.
    pub open spec fn pad(&self, v: usize, limit: usize) -> usize {
        if v + self.spacing <= limit {
            (v + self.spacing) as usize
        } else {
            limit
        }
    }

    /// The area that `l` claims in its texture: its image with spacing right of
    /// and below it, cut down to the texture.
    pub open spec fn footprint(&self, l: Layout, sizes: Seq<[usize; 2]>) -> Rect {
        let e = extent(l, sizes);
        Rect {
            size: [self.pad(e[0], self.texture_size[0]), self.pad(e[1], self.texture_size[1])],
            position: l.position,
        }
    }

    /// The area of `l`'s image with the full spacing right of and below it.
    pub open spec fn spaced_rect(&self, l: Layout, sizes: Seq<[usize; 2]>) -> Rect {
        let e = extent(l, sizes);
        Rect {
            size: [(e[0] + self.spacing) as usize, (e[1] + self.spacing) as usize],
            position: l.position,
        }
    }

    /// Image `index` of `size` placed at the first free rectangle that takes
    /// it, turned if it fits only so and turning is allowed; `None` when the
    /// texture has no room for it.
    pub open spec fn placed(
        &self,
        layouts: Seq<Layout>,
        spaces: Seq<Rect>,
        index: int,
        size: [usize; 2],
    ) -> Option<(Seq<Layout>, Seq<Rect>)> {
        let pw = self.pad(size[0], self.texture_size[0]);
        let ph = self.pad(size[1], self.texture_size[1]);
        let rw = self.pad(size[1], self.texture_size[0]);
        let rh = self.pad(size[0], self.texture_size[1]);
        if let Some(s) = first_fit(spaces, pw as int, ph as int) {
            Some(
                (
                    layouts.push(Layout { index: index as usize, position: s.position, rotated: false }),
                    excluded(spaces, Rect { size: [pw, ph], position: s.position }),
                ),
            )
        } else if self.enable_rotate && size[1] <= self.width() && size[0] <= self.height() {
            if let Some(s) = first_fit(spaces, rw as int, rh as int) {
                Some(
                    (
                        layouts.push(Layout { index: index as usize, position: s.position, rotated: true }),
                        excluded(spaces, Rect { size: [rw, rh], position: s.position }),
                    ),
                )
            } else {
                None
            }
        } else {
            None
        }
    }

    /// After the first `n` images: the finished textures, and the layouts and
    /// free space of the texture being filled.
    pub open spec fn state_after(&self, sizes: Seq<[usize; 2]>, n: nat) -> (
        Seq<Seq<Layout>>,
        Seq<Layout>,
        Seq<Rect>,
    )
        decreases n,
    {
        if n == 0 {
            (seq![], seq![], self.fresh())
        } else {
            let prev = self.state_after(sizes, (n - 1) as nat);
            let i = n - 1;
            if let Some(next) = self.placed(prev.1, prev.2, i, sizes[i]) {
                (prev.0, next.0, next.1)
            } else if let Some(next) = self.placed(seq![], self.fresh(), i, sizes[i]) {
                (prev.0.push(prev.1), next.0, next.1)
            } else {
                (prev.0.push(prev.1), seq![], self.fresh())
            }
        }
    }

    /// The layouts of each texture once every image is placed.
    pub open spec fn packed(&self, sizes: Seq<[usize; 2]>) -> Seq<Seq<Layout>> {
        let st = self.state_after(sizes, sizes.len());
        if st.1.len() > 0 {
            st.0.push(st.1)
        } else {
            st.0
        }
    }

    /// The smallest index of an image that does not fit the texture.
    pub open spec fn first_too_large(&self, sizes: Seq<[usize; 2]>, i: int) -> bool {
        &&& 0 <= i < sizes.len()
        &&& !self.fits_texture(sizes[i])
        &&& forall|j: int| 0 <= j < i ==> self.fits_texture(#[trigger] sizes[j])
    }

    /// Packs the images of `image_sizes`, in their order, into as many
    /// textures as it takes.
    pub fn pack(&self, image_sizes: &Vec<[usize; 2]>) -> (r: Result<Vec<Vec<Layout>>, PackError>)
        ensures
            match r {
                Ok(bins) => {
                    &&& self.valid()
                    &&& self.all_fit(image_sizes@)
                    &&& bins_view(bins@) == self.packed(image_sizes@)
                },
                Err(PackError::BadTextureSize { texture_size }) => {
                    &&& !self.texture_ok()
                    &&& texture_size == self.texture_size
                },
                Err(PackError::SpacingTooLarge { spacing, texture_size }) => {
                    &&& self.texture_ok()
                    &&& !self.spacing_ok()
                    &&& spacing == self.spacing
                    &&& texture_size == self.texture_size
                },
                Err(PackError::ImageTooLarge { index, size, texture_size }) => {
                    &&& self.valid()
                    &&& self.first_too_large(image_sizes@, index as int)
                    &&& size == image_sizes@[index as int]
                    &&& texture_size == self.texture_size
                },
            },
    {
        let w = self.texture_size[0];
        let h = self.texture_size[1];
        if w == 0 || h == 0 || w > MAX_TEXTURE_SIZE || h > MAX_TEXTURE_SIZE {
            return Err(PackError::BadTextureSize { texture_size: self.texture_size });
        }
        if self.spacing >= w || self.spacing >= h {
            return Err(
                PackError::SpacingTooLarge { spacing: self.spacing, texture_size: self.texture_size },
            );
        }
        let n = image_sizes.len();
        let mut i: usize = 0;
        while i < n
            invariant
                n == image_sizes@.len(),
                i <= n,
                self.valid(),
                w == self.width(),
                h == self.height(),
                forall|j: int| 0 <= j < i ==> self.fits_texture(#[trigger] image_sizes@[j]),
            decreases n - i,
        {
            let size = image_sizes[i];
            if size[0] > w || size[1] > h {
                return Err(
                    PackError::ImageTooLarge {
                        index: i,
                        size,
                        texture_size: self.texture_size,
                    },
                );
            }
            i += 1;
        }
        let ghost sizes = image_sizes@;
        let mut results: Vec<Vec<Layout>> = Vec::new();
        let mut current = Packed::new(self.texture_size);
        let mut index: usize = 0;
        assert(bins_view(results@) =~= seq![]);
        while index < n
            invariant
                sizes == image_sizes@,
                n == sizes.len(),
                index <= n,
                self.valid(),
                self.all_fit(sizes),
                current.wf(),
                ({
                    let st = self.state_after(sizes, index as nat);
                    &&& bins_view(results@) == st.0
                    &&& current.layouts@ == st.1
                    &&& current.spaces@ == st.2
                }),
            decreases n - index,
        {
            let size = image_sizes[index];
            assert(self.fits_texture(sizes[index as int]));
            if !self.try_pack_one(&mut current, index, &size) {
                let ghost done = results@;
                let mut next = Packed::new(self.texture_size);
                std::mem::swap(&mut next, &mut current);
                results.push(next.layouts);
                assert(bins_view(results@) =~= bins_view(done).push(next.layouts@));
                self.try_pack_one(&mut current, index, &size);
            }
            index += 1;
        }
        if current.layouts.len() > 0 {
            let ghost done = results@;
            results.push(current.layouts);
            assert(bins_view(results@) =~= bins_view(done).push(current.layouts@));
        }
        Ok(results)
    }

    /// Places image `index` of `size` in `packed` where `placed` says, if it has room.
    fn try_pack_one(&self, packed: &mut Packed, index: usize, size: &[usize; 2]) -> (r: bool)
        requires
            self.valid(),
            self.fits_texture(*size),
            old(packed).wf(),
        ensures
            final(packed).wf(),
            match self.placed(old(packed).layouts@, old(packed).spaces@, index as int, *size) {
                Some(next) => {
                    &&& r
                    &&& final(packed).layouts@ == next.0
                    &&& final(packed).spaces@ == next.1
                },
                None => {
                    &&& !r
                    &&& final(packed).layouts@ == old(packed).layouts@
                    &&& final(packed).spaces@ == old(packed).spaces@
                },
            },
    {
        let tw = self.texture_size[0];
        let th = self.texture_size[1];
        let w = size[0] + self.spacing;
        let h = size[1] + self.spacing;
        let size_with_spacing = [if w <= tw { w } else { tw }, if h <= th { h } else { th }];
        proof {
            lemma_first_fit(packed.spaces@, size_with_spacing[0] as int, size_with_spacing[1] as int);
        }
        if let Some(space) = packed.spaces.find_space(size_with_spacing) {
            let layout = Layout { index, position: space.position, rotated: false };
            packed.layouts.push(layout);
            packed.spaces.exclude(&Rect { position: space.position, size: size_with_spacing });
            return true;
        }
        if self.enable_rotate && size[1] <= tw && size[0] <= th {
            let w = size[1] + self.spacing;
            let h = size[0] + self.spacing;
            let rotated_size = [if w <= tw { w } else { tw }, if h <= th { h } else { th }];
            proof {
                lemma_first_fit(packed.spaces@, rotated_size[0] as int, rotated_size[1] as int);
            }
            if let Some(space) = packed.spaces.find_space(rotated_size) {
                let layout = Layout { index, position: space.position, rotated: true };
                packed.layouts.push(layout);
                packed.spaces.exclude(&Rect { position: space.position, size: rotated_size });
                return true;
            }
        }
        false
    }
}

impl Packed {
    pub open spec fn wf(&self) -> bool {
        self.spaces.wf()
    }

    /// An empty texture of `texture_size`.
    pub fn new(texture_size: [usize; 2]) -> (r: Packed)
        requires
            1 <= texture_size[0] <= MAX_TEXTURE_SIZE,
            1 <= texture_size[1] <= MAX_TEXTURE_SIZE,
        ensures
            r.wf(),
            r.layouts@ == Seq::<Layout>::empty(),
            r.spaces@ == seq![Rect { size: texture_size, position: [0, 0] }],
    {
        Packed { layouts: Vec::new(), spaces: Spaces::new(texture_size) }
    }
}

} // verus!
