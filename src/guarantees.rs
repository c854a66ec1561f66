use vstd::prelude::*;

use crate::packer::{extent, image_rect, Layout, Packer};
use crate::rect::Rect;
use crate::spaces::{
    all_of, bounded, by_area_desc, cut_pieces, excluded, first_fit, lemma_added_all_all,
    lemma_by_area_desc_all, lemma_cut_pieces, lemma_excluded_covers, lemma_first_fit,
    lemma_untouched, untouched,
};

verus! {

impl Packer {
    /// The layouts `b` of one texture, with images below `n` placed: each
    /// claims an area inside the texture, turned only where turning is on, and
    /// the images come in input order with claimed areas that do not intersect.
    pub open spec fn bin_ok(&self, sizes: Seq<[usize; 2]>, b: Seq<Layout>, n: int) -> bool {
        &&& forall|k: int|
            0 <= k < b.len() ==> {
                let l = #[trigger] b[k];
                &&& l.index < n
                &&& self.texture().contains(self.footprint(l, sizes))
                &&& extent(l, sizes)[0] <= self.width()
                &&& extent(l, sizes)[1] <= self.height()
                &&& (l.rotated ==> self.enable_rotate)
            }
        &&& forall|k1: int, k2: int|
            0 <= k1 < k2 < b.len() ==> {
                &&& (#[trigger] b[k1]).index < (#[trigger] b[k2]).index
                &&& !self.footprint(b[k1], sizes).intersects(self.footprint(b[k2], sizes))
            }
    }

    /// Each free rectangle `sp` keeps at least one pixel in each dimension, lies
    /// in the texture and meets no area claimed by the layouts `b`.
    pub open spec fn free_ok(&self, sizes: Seq<[usize; 2]>, b: Seq<Layout>, sp: Seq<Rect>) -> bool {
        forall|i: int| 0 <= i < sp.len() ==> self.free_rect_ok(sizes, b, #[trigger] sp[i])
    }

    pub open spec fn free_rect_ok(&self, sizes: Seq<[usize; 2]>, b: Seq<Layout>, r: Rect) -> bool {
        &&& bounded(r)
        &&& self.texture().contains(r)
        &&& forall|k: int| 0 <= k < b.len() ==> !r.intersects(self.footprint(#[trigger] b[k], sizes))
    }

    /// Every point of the texture that no layout of `b` claims lies in some
    /// free rectangle of `sp`.
    pub open spec fn free_covers(&self, sizes: Seq<[usize; 2]>, b: Seq<Layout>, sp: Seq<Rect>) -> bool {
        forall|px: int, py: int|
            #[trigger] self.texture().covers(px, py) && (forall|k: int|
                0 <= k < b.len() ==> !self.footprint(#[trigger] b[k], sizes).covers(px, py))
                ==> exists|i: int| 0 <= i < sp.len() && (#[trigger] sp[i]).covers(px, py)
    }

    /// What holds after the first `n` images: they were placed in order, each
    /// once; finished textures are not empty; every texture is in order; an
    /// empty texture has all of its space free.
    pub open spec fn state_ok(
        &self,
        sizes: Seq<[usize; 2]>,
        n: int,
        st: (Seq<Seq<Layout>>, Seq<Layout>, Seq<Rect>),
    ) -> bool {
        let all = st.0.flatten() + st.1;
        &&& all.len() == n
        &&& forall|k: int| 0 <= k < n ==> (#[trigger] all[k]).index == k
        &&& forall|b: int|
            0 <= b < st.0.len() ==> (#[trigger] st.0[b]).len() > 0 && self.bin_ok(sizes, st.0[b], n)
        &&& self.bin_ok(sizes, st.1, n)
        &&& self.free_ok(sizes, st.1, st.2)
        &&& self.free_covers(sizes, st.1, st.2)
        &&& (st.1.len() == 0 ==> st.2 == self.fresh())
    }
}

/// Placing image `n` where `placed` puts it keeps the texture's layouts and its
/// free space in order.
proof fn lemma_placed_ok(p: Packer, sizes: Seq<[usize; 2]>, b: Seq<Layout>, sp: Seq<Rect>, n: int)
    requires
        p.valid(),
        p.all_fit(sizes),
        0 <= n < sizes.len() <= usize::MAX,
        p.bin_ok(sizes, b, n),
        p.free_ok(sizes, b, sp),
        p.free_covers(sizes, b, sp),
        p.placed(b, sp, n, sizes[n]) is Some,
    ensures
        ({
            let next = p.placed(b, sp, n, sizes[n])->Some_0;
            &&& next.0.len() == b.len() + 1
            &&& next.0.drop_last() == b
            &&& next.0.last().index == n
            &&& p.bin_ok(sizes, next.0, n + 1)
            &&& p.free_ok(sizes, next.0, next.1)
            &&& p.free_covers(sizes, next.0, next.1)
        }),
{
    let size = sizes[n];
    assert(p.fits_texture(size));
    let pw = p.pad(size[0], p.texture_size[0]);
    let ph = p.pad(size[1], p.texture_size[1]);
    let rw = p.pad(size[1], p.texture_size[0]);
    let rh = p.pad(size[0], p.texture_size[1]);
    lemma_first_fit(sp, pw as int, ph as int);
    lemma_first_fit(sp, rw as int, rh as int);
    let next = p.placed(b, sp, n, size)->Some_0;
    let (s, f, l) = if let Some(s) = first_fit(sp, pw as int, ph as int) {
        (s, Rect { size: [pw, ph], position: s.position }, Layout { index: n as usize, position: s.position, rotated: false })
    } else {
        let s = first_fit(sp, rw as int, rh as int)->Some_0;
        (s, Rect { size: [rw, rh], position: s.position }, Layout { index: n as usize, position: s.position, rotated: true })
    };
    assert(next.0 == b.push(l));
    assert(next.1 == excluded(sp, f));
    assert(next.0.drop_last() =~= b);
    let i = choose|i: int| 0 <= i < sp.len() && sp[i] == s;
    assert(p.free_rect_ok(sizes, b, sp[i]));
    assert(s.contains(f));
    assert(p.footprint(l, sizes) == f);
    let nb = b.push(l);
    assert forall|k1: int, k2: int| 0 <= k1 < k2 < nb.len() implies {
        &&& (#[trigger] nb[k1]).index < (#[trigger] nb[k2]).index
        &&& !p.footprint(nb[k1], sizes).intersects(p.footprint(nb[k2], sizes))
    } by {
        if k2 == b.len() {
            assert(nb[k1] == b[k1]);
            assert(!s.intersects(p.footprint(b[k1], sizes)));
        } else {
            assert(nb[k1] == b[k1] && nb[k2] == b[k2]);
        }
    }
    assert forall|k: int| 0 <= k < nb.len() implies {
        let l = #[trigger] nb[k];
        &&& l.index < n + 1
        &&& p.texture().contains(p.footprint(l, sizes))
        &&& extent(l, sizes)[0] <= p.width()
        &&& extent(l, sizes)[1] <= p.height()
        &&& (l.rotated ==> p.enable_rotate)
    } by {
        if k < b.len() {
            assert(nb[k] == b[k]);
        }
    }
    let q = |r: Rect| p.free_rect_ok(sizes, b, r);
    let q2 = |r: Rect| p.free_rect_ok(sizes, b, r) && !r.intersects(f);
    assert(all_of(sp, q));
    assert forall|a: Rect, c: Rect|
        q(a) && a.contains(c) && c.width() >= 1 && c.height() >= 1 && bounded(a) implies #[trigger] q(
            c,
        ) && #[trigger] a.contains(c) by {
        assert forall|k: int| 0 <= k < b.len() implies !c.intersects(
            p.footprint(#[trigger] b[k], sizes),
        ) by {
            assert(!a.intersects(p.footprint(b[k], sizes)));
        }
    }
    lemma_untouched(sp, f, q);
    lemma_cut_pieces(sp, f, q);
    let u = untouched(sp, f);
    let c = cut_pieces(sp, f);
    assert(all_of(u, q2));
    assert(all_of(c, q2));
    lemma_by_area_desc_all(c, q2);
    lemma_added_all_all(u, by_area_desc(c), q2);
    let e = excluded(sp, f);
    assert forall|i: int| 0 <= i < e.len() implies p.free_rect_ok(sizes, nb, #[trigger] e[i]) by {
        assert(q2(e[i]));
        assert forall|k: int| 0 <= k < nb.len() implies !e[i].intersects(
            p.footprint(#[trigger] nb[k], sizes),
        ) by {
            if k < b.len() {
                assert(nb[k] == b[k]);
            }
        }
    }
    assert forall|px: int, py: int|
        #[trigger] p.texture().covers(px, py) && (forall|k: int|
            0 <= k < nb.len() ==> !p.footprint(#[trigger] nb[k], sizes).covers(px, py)) implies exists|j: int|
        0 <= j < e.len() && (#[trigger] e[j]).covers(px, py) by {
        assert forall|k: int| 0 <= k < b.len() implies !p.footprint(#[trigger] b[k], sizes).covers(
            px,
            py,
        ) by {
            assert(nb[k] == b[k]);
        }
        assert(nb[b.len() as int] == l);
        assert(!f.covers(px, py));
        assert forall|j: int| 0 <= j < sp.len() implies bounded(#[trigger] sp[j]) by {
            assert(p.free_rect_ok(sizes, b, sp[j]));
        }
        lemma_excluded_covers(sp, f, px, py);
    }
}

/// An empty texture takes any image that fits it unturned, at its corner.
proof fn lemma_fresh_placed(p: Packer, sizes: Seq<[usize; 2]>, n: int)
    requires
        p.valid(),
        p.all_fit(sizes),
        0 <= n < sizes.len() <= usize::MAX,
    ensures
        p.placed(seq![], p.fresh(), n, sizes[n]) is Some,
        p.bin_ok(sizes, seq![], n),
        p.free_ok(sizes, seq![], p.fresh()),
        p.free_covers(sizes, seq![], p.fresh()),
{
    assert(p.fits_texture(sizes[n]));
    assert(p.fresh()[0] == p.texture());
}

proof fn lemma_bin_ok_grows(p: Packer, sizes: Seq<[usize; 2]>, b: Seq<Layout>, n: int, m: int)
    requires
        p.bin_ok(sizes, b, n),
        n <= m,
    ensures
        p.bin_ok(sizes, b, m),
{
}

/// The packing state after any number of images satisfies `state_ok`.
proof fn lemma_state_ok(p: Packer, sizes: Seq<[usize; 2]>, n: nat)
    requires
        p.valid(),
        p.all_fit(sizes),
        n <= sizes.len() <= usize::MAX,
    ensures
        p.state_ok(sizes, n as int, p.state_after(sizes, n)),
    decreases n,
{
    broadcast use Seq::lemma_flatten_push;

    if n == 0 {
        assert(Seq::<Seq<Layout>>::empty().flatten() =~= Seq::<Layout>::empty());
        let st = p.state_after(sizes, 0);
        assert(st.0.flatten() + st.1 =~= Seq::<Layout>::empty());
    } else {
        let i = n - 1;
        let prev = p.state_after(sizes, i as nat);
        lemma_state_ok(p, sizes, i as nat);
        let st = p.state_after(sizes, n);
        let before = prev.0.flatten() + prev.1;
        assert forall|b: int| 0 <= b < prev.0.len() implies p.bin_ok(sizes, #[trigger] prev.0[b], n as int) by {
            lemma_bin_ok_grows(p, sizes, prev.0[b], i, n as int);
        }
        if p.placed(prev.1, prev.2, i, sizes[i]) is Some {
            lemma_placed_ok(p, sizes, prev.1, prev.2, i);
            let next = p.placed(prev.1, prev.2, i, sizes[i])->Some_0;
            assert(next.0 =~= prev.1.push(next.0.last()));
            assert(st.0.flatten() + st.1 =~= before.push(next.0.last()));
        } else {
            lemma_fresh_placed(p, sizes, i);
            lemma_placed_ok(p, sizes, seq![], p.fresh(), i);
            let next = p.placed(seq![], p.fresh(), i, sizes[i])->Some_0;
            assert(next.0 =~= seq![next.0.last()]);
            assert(prev.0.push(prev.1).flatten() =~= before);
            assert(st.0.flatten() + st.1 =~= before.push(next.0.last()));
            lemma_bin_ok_grows(p, sizes, prev.1, i, n as int);
            assert(prev.1.len() > 0);
            assert forall|b: int| 0 <= b < st.0.len() implies (#[trigger] st.0[b]).len() > 0
                && p.bin_ok(sizes, st.0[b], n as int) by {
                if b < prev.0.len() {
                    assert(st.0[b] == prev.0[b]);
                }
            }
        }
    }
}

/// The textures of `packed`, flattened, followed by what `state_ok` says of
/// the end state.
proof fn lemma_packed_ok(p: Packer, sizes: Seq<[usize; 2]>)
    requires
        p.valid(),
        p.all_fit(sizes),
        sizes.len() <= usize::MAX,
    ensures
        p.packed(sizes).flatten().len() == sizes.len(),
        forall|k: int|
            0 <= k < sizes.len() ==> (#[trigger] p.packed(sizes).flatten()[k]).index == k,
        forall|b: int|
            0 <= b < p.packed(sizes).len() ==> (#[trigger] p.packed(sizes)[b]).len() > 0
                && p.bin_ok(sizes, p.packed(sizes)[b], sizes.len() as int),
{
    broadcast use Seq::lemma_flatten_push;

    lemma_state_ok(p, sizes, sizes.len());
    let st = p.state_after(sizes, sizes.len());
    let r = p.packed(sizes);
    if st.1.len() > 0 {
        assert(r.flatten() =~= st.0.flatten() + st.1);
        assert forall|b: int| 0 <= b < r.len() implies (#[trigger] r[b]).len() > 0 && p.bin_ok(
            sizes,
            r[b],
            sizes.len() as int,
        ) by {
            if b < st.0.len() {
                assert(r[b] == st.0[b]);
            }
        }
    } else {
        assert(r.flatten() =~= st.0.flatten() + st.1);
    }
}

/// Every image is placed: the textures hold as many layouts as there are
/// images, and no texture is empty.
pub proof fn lemma_pack_places_every_image(p: Packer, sizes: Seq<[usize; 2]>)
    requires
        p.valid(),
        p.all_fit(sizes),
        sizes.len() <= usize::MAX,
    ensures
        p.packed(sizes).flatten().len() == sizes.len(),
        forall|b: int| 0 <= b < p.packed(sizes).len() ==> (#[trigger] p.packed(sizes)[b]).len() > 0,
{
    lemma_packed_ok(p, sizes);
}

/// The indices of all layouts are `0, 1, …, n − 1`, each once: as a multiset,
/// and even in this order when the textures are read one after another.
pub proof fn lemma_pack_indices(p: Packer, sizes: Seq<[usize; 2]>)
    requires
        p.valid(),
        p.all_fit(sizes),
        sizes.len() <= usize::MAX,
    ensures
        p.packed(sizes).flatten().map_values(|l: Layout| l.index as int) == Seq::new(
            sizes.len(),
            |i: int| i,
        ),
        p.packed(sizes).flatten().map_values(|l: Layout| l.index as int).to_multiset() == Seq::new(
            sizes.len(),
            |i: int| i,
        ).to_multiset(),
{
    lemma_packed_ok(p, sizes);
    assert(p.packed(sizes).flatten().map_values(|l: Layout| l.index as int) =~= Seq::new(
        sizes.len(),
        |i: int| i,
    ));
}

/// Each image, turned as its layout says, lies inside the texture.
pub proof fn lemma_pack_within_texture(p: Packer, sizes: Seq<[usize; 2]>)
    requires
        p.valid(),
        p.all_fit(sizes),
        sizes.len() <= usize::MAX,
    ensures
        forall|b: int, k: int|
            0 <= b < p.packed(sizes).len() && 0 <= k < p.packed(sizes)[b].len() ==> {
                let l = #[trigger] p.packed(sizes)[b][k];
                &&& l.index < sizes.len()
                &&& p.texture().contains(image_rect(l, sizes))
            },
{
    lemma_packed_ok(p, sizes);
    let r = p.packed(sizes);
    assert forall|b: int, k: int| 0 <= b < r.len() && 0 <= k < r[b].len() implies {
        let l = #[trigger] r[b][k];
        &&& l.index < sizes.len()
        &&& p.texture().contains(image_rect(l, sizes))
    } by {
        assert(p.bin_ok(sizes, r[b], sizes.len() as int));
        let l = r[b][k];
        assert(p.texture().contains(p.footprint(l, sizes)));
    }
}

/// Claimed areas that do not intersect stay apart when the spacing is added in
/// full, without cutting it down to the texture.
proof fn lemma_spaced_apart(p: Packer, sizes: Seq<[usize; 2]>, a: Layout, c: Layout)
    requires
        p.valid(),
        p.texture().contains(p.footprint(a, sizes)),
        p.texture().contains(p.footprint(c, sizes)),
        extent(a, sizes)[0] <= p.width(),
        extent(a, sizes)[1] <= p.height(),
        extent(c, sizes)[0] <= p.width(),
        extent(c, sizes)[1] <= p.height(),
        !p.footprint(a, sizes).intersects(p.footprint(c, sizes)),
    ensures
        !p.spaced_rect(a, sizes).intersects(p.spaced_rect(c, sizes)),
        !p.spaced_rect(c, sizes).intersects(p.spaced_rect(a, sizes)),
{
}

/// Within a texture, the images with the full spacing added right of and below
/// each do not intersect.
pub proof fn lemma_pack_no_overlap(p: Packer, sizes: Seq<[usize; 2]>)
    requires
        p.valid(),
        p.all_fit(sizes),
        sizes.len() <= usize::MAX,
    ensures
        forall|b: int, k1: int, k2: int|
            0 <= b < p.packed(sizes).len() && 0 <= k1 < p.packed(sizes)[b].len() && 0 <= k2
                < p.packed(sizes)[b].len() && k1 != k2 ==> !p.spaced_rect(
                #[trigger] p.packed(sizes)[b][k1],
                sizes,
            ).intersects(p.spaced_rect(#[trigger] p.packed(sizes)[b][k2], sizes)),
{
    lemma_packed_ok(p, sizes);
    let r = p.packed(sizes);
    assert forall|b: int, k1: int, k2: int|
        0 <= b < r.len() && 0 <= k1 < r[b].len() && 0 <= k2 < r[b].len() && k1
            != k2 implies !p.spaced_rect(#[trigger] r[b][k1], sizes).intersects(
        p.spaced_rect(#[trigger] r[b][k2], sizes),
    ) by {
        assert(p.bin_ok(sizes, r[b], sizes.len() as int));
        let x = r[b][k1];
        let y = r[b][k2];
        if k1 < k2 {
            lemma_spaced_apart(p, sizes, x, y);
        } else {
            lemma_spaced_apart(p, sizes, y, x);
        }
    }
}

/// With turning off, no image is turned.
pub proof fn lemma_pack_unrotated(p: Packer, sizes: Seq<[usize; 2]>)
    requires
        p.valid(),
        p.all_fit(sizes),
        sizes.len() <= usize::MAX,
        !p.enable_rotate,
    ensures
        forall|b: int, k: int|
            0 <= b < p.packed(sizes).len() && 0 <= k < p.packed(sizes)[b].len()
                ==> !(#[trigger] p.packed(sizes)[b][k]).rotated,
{
    lemma_packed_ok(p, sizes);
    let r = p.packed(sizes);
    assert forall|b: int, k: int| 0 <= b < r.len() && 0 <= k < r[b].len() implies !(
    #[trigger] r[b][k]).rotated by {
        assert(p.bin_ok(sizes, r[b], sizes.len() as int));
    }
}

/// Within a texture, the images come in the order of the input.
pub proof fn lemma_pack_in_input_order(p: Packer, sizes: Seq<[usize; 2]>)
    requires
        p.valid(),
        p.all_fit(sizes),
        sizes.len() <= usize::MAX,
    ensures
        forall|b: int, k1: int, k2: int|
            0 <= b < p.packed(sizes).len() && 0 <= k1 < k2 < p.packed(sizes)[b].len() ==> (
            #[trigger] p.packed(sizes)[b][k1]).index < (#[trigger] p.packed(sizes)[b][k2]).index,
{
    lemma_packed_ok(p, sizes);
    let r = p.packed(sizes);
    assert forall|b: int, k1: int, k2: int|
        0 <= b < r.len() && 0 <= k1 < k2 < r[b].len() implies (#[trigger] r[b][k1]).index < (
    #[trigger] r[b][k2]).index by {
        assert(p.bin_ok(sizes, r[b], sizes.len() as int));
    }
}

/// The free space of the texture being filled, after any number of images:
/// each free rectangle lies in the texture and meets no area that an image
/// there claims, and every point of the texture that no image claims lies in
/// some free rectangle.
pub proof fn lemma_free_space(p: Packer, sizes: Seq<[usize; 2]>, n: nat)
    requires
        p.valid(),
        p.all_fit(sizes),
        n <= sizes.len() <= usize::MAX,
    ensures
        ({
            let st = p.state_after(sizes, n);
            &&& p.free_ok(sizes, st.1, st.2)
            &&& p.free_covers(sizes, st.1, st.2)
        }),
{
    lemma_state_ok(p, sizes, n);
}

} // verus!
