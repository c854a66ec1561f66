use vstd::prelude::*;

use crate::packer::MAX_TEXTURE_SIZE;
use crate::rect::{lemma_divided, lemma_divided_covers, Rect};

verus! {

/// `a` comes no later than `b` in the index: ascending area, then ascending width.
pub open spec fn key_le(a: Rect, b: Rect) -> bool {
    a.area() < b.area() || (a.area() == b.area() && a.width() <= b.width())
}

pub open spec fn sorted_by_key(s: Seq<Rect>) -> bool {
    forall|i: int, j: int| 0 <= i < j < s.len() ==> key_le(s[i], s[j])
}

/// At least one pixel in each dimension, and inside the largest texture.
pub open spec fn bounded(r: Rect) -> bool {
    &&& 1 <= r.width()
    &&& 1 <= r.height()
    &&& r.right() <= MAX_TEXTURE_SIZE
    &&& r.bottom() <= MAX_TEXTURE_SIZE
}

/// The free rectangles of an index: ordered by key, each bounded.
pub open spec fn spaces_wf(s: Seq<Rect>) -> bool {
    &&& sorted_by_key(s)
    &&& forall|i: int| 0 <= i < s.len() ==> bounded(#[trigger] s[i])
}

pub open spec fn fits(r: Rect, w: int, h: int) -> bool {
    r.width() >= w && r.height() >= h
}

/// The first rectangle, in index order, that is at least `w × h`.
pub open spec fn first_fit(s: Seq<Rect>, w: int, h: int) -> Option<Rect>
    decreases s.len(),
{
    if s.len() == 0 {
        None
    } else if fits(s[0], w, h) {
        Some(s[0])
    } else {
        first_fit(s.drop_first(), w, h)
    }
}

/// `first_fit` gives a rectangle of `s` that fits, or tells that none does.
pub proof fn lemma_first_fit(s: Seq<Rect>, w: int, h: int)
    ensures
        match first_fit(s, w, h) {
            Some(r) => exists|i: int| 0 <= i < s.len() && s[i] == r && fits(r, w, h),
            None => forall|i: int| 0 <= i < s.len() ==> !fits(#[trigger] s[i], w, h),
        },
    decreases s.len(),
{
    if s.len() > 0 && !fits(s[0], w, h) {
        let t = s.drop_first();
        lemma_first_fit(t, w, h);
        if let Some(r) = first_fit(t, w, h) {
            let i = choose|i: int| 0 <= i < t.len() && t[i] == r && fits(r, w, h);
            assert(s[i + 1] == r);
        } else {
            assert forall|i: int| 0 <= i < s.len() implies !fits(#[trigger] s[i], w, h) by {
                if i > 0 {
                    assert(s[i] == t[i - 1]);
                }
            }
        }
    }
}

/// Some rectangle of `s` contains `r`.
pub open spec fn dominated(s: Seq<Rect>, r: Rect) -> bool {
    exists|i: int| 0 <= i < s.len() && #[trigger] s[i].contains(r)
}

/// The position just after the last rectangle of `s` whose key is at most `r`'s.
pub open spec fn upper_bound(s: Seq<Rect>, r: Rect) -> int
    decreases s.len(),
{
    if s.len() == 0 {
        0
    } else if key_le(s.last(), r) {
        s.len() as int
    } else {
        upper_bound(s.drop_last(), r)
    }
}

/// `s` after inserting `r`: unchanged when `r` is dominated, else `r` placed
/// after every rectangle whose key is at most its own.
pub open spec fn added(s: Seq<Rect>, r: Rect) -> Seq<Rect> {
    if dominated(s, r) {
        s
    } else {
        s.insert(upper_bound(s, r), r)
    }
}

/// `s` after inserting each rectangle of `rs` in turn.
pub open spec fn added_all(s: Seq<Rect>, rs: Seq<Rect>) -> Seq<Rect>
    decreases rs.len(),
{
    if rs.len() == 0 {
        s
    } else {
        added(added_all(s, rs.drop_last()), rs.last())
    }
}

/// The position just after the last rectangle of `s` whose area is at least `r`'s.
pub open spec fn area_pos(s: Seq<Rect>, r: Rect) -> int
    decreases s.len(),
{
    if s.len() == 0 {
        0
    } else if s.last().area() >= r.area() {
        s.len() as int
    } else {
        area_pos(s.drop_last(), r)
    }
}

/// `s` ordered by descending area; rectangles of equal area keep their order.
pub open spec fn by_area_desc(s: Seq<Rect>) -> Seq<Rect>
    decreases s.len(),
{
    if s.len() == 0 {
        s
    } else {
        let t = by_area_desc(s.drop_last());
        t.insert(area_pos(t, s.last()), s.last())
    }
}

/// The rectangles of `s` that do not intersect `p`, in order.
pub open spec fn untouched(s: Seq<Rect>, p: Rect) -> Seq<Rect> {
    s.filter(|r: Rect| !r.intersects(p))
}

/// The strips left of the rectangles of `s` that intersect `p`, once `p` is cut out.
pub open spec fn cut_pieces(s: Seq<Rect>, p: Rect) -> Seq<Rect>
    decreases s.len(),
{
    if s.len() == 0 {
        seq![]
    } else {
        cut_pieces(s.drop_last(), p) + if s.last().intersects(p) {
            s.last().divided(p)
        } else {
            seq![]
        }
    }
}

/// The index after `p` is taken: the untouched rectangles, then the strips
/// inserted largest first.
pub open spec fn excluded(s: Seq<Rect>, p: Rect) -> Seq<Rect> {
    added_all(untouched(s, p), by_area_desc(cut_pieces(s, p)))
}

/// In an ordered index, `upper_bound` splits the rectangles whose key is at
/// most `r`'s from those whose key exceeds it.
pub proof fn lemma_upper_bound(s: Seq<Rect>, r: Rect)
    requires
        sorted_by_key(s),
    ensures
        0 <= upper_bound(s, r) <= s.len(),
        forall|i: int| 0 <= i < upper_bound(s, r) ==> key_le(#[trigger] s[i], r),
        forall|i: int| upper_bound(s, r) <= i < s.len() ==> !key_le(#[trigger] s[i], r),
    decreases s.len(),
{
    if s.len() > 0 {
        let n = s.len() - 1;
        if key_le(s[n], r) {
            assert forall|i: int| 0 <= i < s.len() implies key_le(#[trigger] s[i], r) by {
                if i < n {
                    assert(key_le(s[i], s[n]));
                }
            }
        } else {
            let t = s.drop_last();
            lemma_upper_bound(t, r);
            assert forall|i: int| upper_bound(s, r) <= i < s.len() implies !key_le(
                #[trigger] s[i],
                r,
            ) by {
                if i < n {
                    assert(s[i] == t[i]);
                }
            }
            assert forall|i: int| 0 <= i < upper_bound(s, r) implies key_le(#[trigger] s[i], r) by {
                assert(s[i] == t[i]);
            }
        }
    }
}

/// Inserting keeps the index well formed.
pub proof fn lemma_added_wf(s: Seq<Rect>, r: Rect)
    requires
        spaces_wf(s),
        bounded(r),
    ensures
        spaces_wf(added(s, r)),
{
    if !dominated(s, r) {
        lemma_upper_bound(s, r);
        let p = upper_bound(s, r);
        let t = s.insert(p, r);
        assert forall|i: int, j: int| 0 <= i < j < t.len() implies key_le(t[i], t[j]) by {
            if j < p {
            } else if j == p {
            } else if i < p {
                assert(key_le(s[i], s[j - 1]));
            } else if i == p {
                assert(!key_le(s[j - 1], r));
            } else {
                assert(key_le(s[i - 1], s[j - 1]));
            }
        }
        assert forall|i: int| 0 <= i < t.len() implies bounded(#[trigger] t[i]) by {
            if i < p {
                assert(bounded(s[i]));
            } else if i > p {
                assert(bounded(s[i - 1]));
            }
        }
    }
}

/// Every rectangle of `s` satisfies `q`.
pub open spec fn all_of(s: Seq<Rect>, q: spec_fn(Rect) -> bool) -> bool {
    forall|i: int| 0 <= i < s.len() ==> q(#[trigger] s[i])
}

/// A property of every rectangle of `s` and of `rs` holds of every rectangle
/// of the index after inserting `rs`.
pub proof fn lemma_added_all_all(s: Seq<Rect>, rs: Seq<Rect>, q: spec_fn(Rect) -> bool)
    requires
        all_of(s, q),
        all_of(rs, q),
    ensures
        all_of(added_all(s, rs), q),
    decreases rs.len(),
{
    if rs.len() > 0 {
        let init = rs.drop_last();
        assert forall|i: int| 0 <= i < init.len() implies q(#[trigger] init[i]) by {
            assert(init[i] == rs[i]);
        }
        lemma_added_all_all(s, init, q);
        let u = added_all(s, init);
        let r = rs.last();
        assert(q(rs[rs.len() - 1]));
        if !dominated(u, r) {
            lemma_upper_bound_range(u, r);
            let t = u.insert(upper_bound(u, r), r);
            assert forall|i: int| 0 <= i < t.len() implies q(#[trigger] t[i]) by {
                if i < upper_bound(u, r) {
                    assert(t[i] == u[i]);
                } else if i > upper_bound(u, r) {
                    assert(t[i] == u[i - 1]);
                }
            }
        }
    }
}

/// Sorting by area keeps the length and every property shared by all rectangles.
pub proof fn lemma_by_area_desc_all(s: Seq<Rect>, q: spec_fn(Rect) -> bool)
    requires
        all_of(s, q),
    ensures
        all_of(by_area_desc(s), q),
        by_area_desc(s).len() == s.len(),
    decreases s.len(),
{
    if s.len() > 0 {
        let init = s.drop_last();
        assert forall|i: int| 0 <= i < init.len() implies q(#[trigger] init[i]) by {
            assert(init[i] == s[i]);
        }
        lemma_by_area_desc_all(init, q);
        let u = by_area_desc(init);
        let r = s.last();
        assert(q(s[s.len() - 1]));
        lemma_area_pos(u, r);
        let p = area_pos(u, r);
        let t = u.insert(p, r);
        assert forall|i: int| 0 <= i < t.len() implies q(#[trigger] t[i]) by {
            if i < p {
                assert(t[i] == u[i]);
            } else if i > p {
                assert(t[i] == u[i - 1]);
            }
        }
    }
}

/// `upper_bound` is a position of `s`, ordered or not.
pub proof fn lemma_upper_bound_range(s: Seq<Rect>, r: Rect)
    ensures
        0 <= upper_bound(s, r) <= s.len(),
    decreases s.len(),
{
    if s.len() > 0 {
        lemma_upper_bound_range(s.drop_last(), r);
    }
}

/// `area_pos` is a position of `s`.
pub proof fn lemma_area_pos(s: Seq<Rect>, r: Rect)
    ensures
        0 <= area_pos(s, r) <= s.len(),
    decreases s.len(),
{
    if s.len() > 0 {
        lemma_area_pos(s.drop_last(), r);
    }
}

/// The untouched rectangles keep the order and the properties of the index,
/// and none of them intersects `p`.
pub proof fn lemma_untouched(s: Seq<Rect>, p: Rect, q: spec_fn(Rect) -> bool)
    requires
        all_of(s, q),
    ensures
        all_of(untouched(s, p), q),
        all_of(untouched(s, p), |r: Rect| !r.intersects(p)),
        sorted_by_key(s) ==> sorted_by_key(untouched(s, p)),
        forall|i: int|
            0 <= i < untouched(s, p).len() ==> exists|j: int|
                0 <= j < s.len() && s[j] == #[trigger] untouched(s, p)[i],
    decreases s.len(),
{
    reveal(Seq::filter);
    if s.len() > 0 {
        let init = s.drop_last();
        assert forall|i: int| 0 <= i < init.len() implies q(#[trigger] init[i]) by {
            assert(init[i] == s[i]);
        }
        lemma_untouched(init, p, q);
        let u = untouched(init, p);
        let t = untouched(s, p);
        let last = s.last();
        assert(q(s[s.len() - 1]));
        if !last.intersects(p) {
            assert(t == u.push(last));
        } else {
            assert(t == u);
        }
        assert forall|i: int| 0 <= i < t.len() implies exists|j: int|
            0 <= j < s.len() && s[j] == #[trigger] t[i] by {
            if i < u.len() {
                let j = choose|j: int| 0 <= j < init.len() && init[j] == u[i];
                assert(s[j] == t[i]);
            } else {
                assert(s[s.len() - 1] == t[i]);
            }
        }
        if sorted_by_key(s) {
            assert(sorted_by_key(init));
            assert forall|i: int, k: int| 0 <= i < k < t.len() implies key_le(t[i], t[k]) by {
                if k == u.len() {
                    let j = choose|j: int| 0 <= j < init.len() && init[j] == u[i];
                    assert(key_le(s[j], s[s.len() - 1]));
                }
            }
        }
    }
}

/// The pieces cut from the rectangles of `s` that intersect `p` keep the
/// properties that `q` states of those rectangles, where `q` carries over to
/// any smaller rectangle of at least one pixel in each dimension; none of them
/// intersects `p`.
pub proof fn lemma_cut_pieces(s: Seq<Rect>, p: Rect, q: spec_fn(Rect) -> bool)
    requires
        p.edges_fit(),
        forall|i: int| 0 <= i < s.len() ==> bounded(#[trigger] s[i]),
        all_of(s, q),
        forall|a: Rect, b: Rect|
            q(a) && a.contains(b) && b.width() >= 1 && b.height() >= 1 && bounded(a) ==> #[trigger] q(
                b,
            ) && #[trigger] a.contains(b),
    ensures
        all_of(cut_pieces(s, p), q),
        all_of(cut_pieces(s, p), |r: Rect| bounded(r)),
        all_of(cut_pieces(s, p), |r: Rect| !r.intersects(p)),
    decreases s.len(),
{
    if s.len() > 0 {
        let init = s.drop_last();
        assert forall|i: int| 0 <= i < init.len() implies q(#[trigger] init[i]) && bounded(
            init[i],
        ) by {
            assert(init[i] == s[i]);
        }
        lemma_cut_pieces(init, p, q);
        let last = s.last();
        assert(q(s[s.len() - 1]) && bounded(s[s.len() - 1]));
        let u = cut_pieces(init, p);
        let d = if last.intersects(p) {
            last.divided(p)
        } else {
            seq![]
        };
        let t = cut_pieces(s, p);
        assert(t == u + d);
        lemma_divided(last, p);
        assert forall|i: int| 0 <= i < t.len() implies q(#[trigger] t[i]) && bounded(t[i])
            && !t[i].intersects(p) by {
            if i < u.len() {
                assert(t[i] == u[i]);
            } else {
                assert(t[i] == d[i - u.len()]);
                assert(last.contains(t[i]));
            }
        }
    }
}

/// Rectangles are never taken out by inserting: whatever some rectangle of `s`
/// contains stays contained, and so does each inserted rectangle.
pub proof fn lemma_added_all_keeps(s: Seq<Rect>, rs: Seq<Rect>)
    ensures
        forall|x: Rect| dominated(s, x) ==> #[trigger] dominated(added_all(s, rs), x),
        forall|i: int| 0 <= i < rs.len() ==> dominated(added_all(s, rs), #[trigger] rs[i]),
    decreases rs.len(),
{
    if rs.len() > 0 {
        let init = rs.drop_last();
        lemma_added_all_keeps(s, init);
        let u = added_all(s, init);
        let r = rs.last();
        let a = added(u, r);
        lemma_upper_bound_range(u, r);
        let pos = upper_bound(u, r);
        assert forall|x: Rect| dominated(u, x) implies #[trigger] dominated(a, x) by {
            if !dominated(u, r) {
                let j = choose|j: int| 0 <= j < u.len() && #[trigger] u[j].contains(x);
                if j < pos {
                    assert(a[j] == u[j]);
                } else {
                    assert(a[j + 1] == u[j]);
                }
            }
        }
        if !dominated(u, r) {
            assert(a[pos].contains(r));
        }
        assert forall|i: int| 0 <= i < rs.len() implies dominated(a, #[trigger] rs[i]) by {
            if i < init.len() {
                assert(init[i] == rs[i]);
                assert(dominated(u, init[i]));
            }
        }
    }
}

/// Sorting by area loses no rectangle.
pub proof fn lemma_by_area_desc_contains(s: Seq<Rect>)
    ensures
        forall|i: int| 0 <= i < s.len() ==> by_area_desc(s).contains(#[trigger] s[i]),
    decreases s.len(),
{
    if s.len() > 0 {
        let init = s.drop_last();
        lemma_by_area_desc_contains(init);
        let u = by_area_desc(init);
        let r = s.last();
        lemma_area_pos(u, r);
        let pos = area_pos(u, r);
        let t = u.insert(pos, r);
        assert forall|i: int| 0 <= i < s.len() implies t.contains(#[trigger] s[i]) by {
            if i < init.len() {
                assert(init[i] == s[i]);
                let j = choose|j: int| 0 <= j < u.len() && u[j] == init[i];
                if j < pos {
                    assert(t[j] == u[j]);
                } else {
                    assert(t[j + 1] == u[j]);
                }
            } else {
                assert(t[pos] == r);
            }
        }
    }
}

/// A point outside `p` of a rectangle of `s` that intersects `p` lies in one
/// of the pieces cut from it.
pub proof fn lemma_cut_pieces_cover(s: Seq<Rect>, p: Rect, i: int, px: int, py: int)
    requires
        0 <= i < s.len(),
        forall|j: int| 0 <= j < s.len() ==> bounded(#[trigger] s[j]),
        p.edges_fit(),
        s[i].intersects(p),
        s[i].covers(px, py),
        !p.covers(px, py),
    ensures
        exists|k: int| 0 <= k < cut_pieces(s, p).len() && (#[trigger] cut_pieces(s, p)[k]).covers(px, py),
    decreases s.len(),
{
    let init = s.drop_last();
    let u = cut_pieces(init, p);
    let last = s.last();
    let d = if last.intersects(p) {
        last.divided(p)
    } else {
        seq![]
    };
    let c = cut_pieces(s, p);
    assert(c == u + d);
    if i == s.len() - 1 {
        assert(bounded(s[i]));
        lemma_divided_covers(last, p, px, py);
        let k = choose|k: int| 0 <= k < d.len() && (#[trigger] d[k]).covers(px, py);
        assert(c[u.len() + k] == d[k]);
    } else {
        assert(init[i] == s[i]);
        assert forall|j: int| 0 <= j < init.len() implies bounded(#[trigger] init[j]) by {
            assert(init[j] == s[j]);
        }
        lemma_cut_pieces_cover(init, p, i, px, py);
        let k = choose|k: int| 0 <= k < u.len() && (#[trigger] u[k]).covers(px, py);
        assert(c[k] == u[k]);
    }
}

/// Taking `p` out of the index keeps every point outside `p` that some free
/// rectangle covered covered.
pub proof fn lemma_excluded_covers(s: Seq<Rect>, p: Rect, px: int, py: int)
    requires
        forall|j: int| 0 <= j < s.len() ==> bounded(#[trigger] s[j]),
        p.edges_fit(),
        exists|i: int| 0 <= i < s.len() && (#[trigger] s[i]).covers(px, py),
        !p.covers(px, py),
    ensures
        exists|j: int| 0 <= j < excluded(s, p).len() && (#[trigger] excluded(s, p)[j]).covers(px, py),
{
    let i = choose|i: int| 0 <= i < s.len() && (#[trigger] s[i]).covers(px, py);
    let u = untouched(s, p);
    let c = cut_pieces(s, p);
    let sorted = by_area_desc(c);
    let e = excluded(s, p);
    lemma_added_all_keeps(u, sorted);
    let piece = if !s[i].intersects(p) {
        reveal(Seq::filter);
        s.lemma_filter_contains(|r: Rect| !r.intersects(p), i);
        let j = choose|j: int| 0 <= j < u.len() && u[j] == s[i];
        assert(u[j].contains(s[i]));
        assert(dominated(u, s[i]));
        s[i]
    } else {
        lemma_cut_pieces_cover(s, p, i, px, py);
        let k = choose|k: int| 0 <= k < c.len() && (#[trigger] c[k]).covers(px, py);
        lemma_by_area_desc_contains(c);
        assert(sorted.contains(c[k]));
        let j = choose|j: int| 0 <= j < sorted.len() && sorted[j] == c[k];
        assert(dominated(e, sorted[j]));
        c[k]
    };
    assert(dominated(e, piece));
    let j = choose|j: int| 0 <= j < e.len() && #[trigger] e[j].contains(piece);
    assert(e[j].covers(px, py));
}

/// The free rectangles of one texture, in the order of `key_le`.
#[derive(Debug)]
pub struct Spaces {
    spaces: Vec<Rect>,
}

impl View for Spaces {
    type V = Seq<Rect>;

    closed spec fn view(&self) -> Seq<Rect> {
        self.spaces@
    }
}

fn area_of(r: &Rect) -> (a: usize)
    requires
        bounded(*r),
    ensures
        a == r.area(),
{
    let w = r.size[0];
    let h = r.size[1];
    assert(w * h <= 4096 * 4096) by (nonlinear_arith)
        requires
            w <= 4096,
            h <= 4096,
    ;
    w * h
}

/// A stable sort of `v` by descending area.
fn sort_by_area_desc(v: &Vec<Rect>) -> (r: Vec<Rect>)
    requires
        all_of(v@, |r: Rect| bounded(r)),
    ensures
        r@ == by_area_desc(v@),
{
    let mut out: Vec<Rect> = Vec::new();
    let mut i: usize = 0;
    while i < v.len()
        invariant
            i <= v.len(),
            out@ == by_area_desc(v@.subrange(0, i as int)),
            all_of(v@, |r: Rect| bounded(r)),
            all_of(out@, |r: Rect| bounded(r)),
        decreases v.len() - i,
    {
        let r = v[i];
        assert(bounded(v@[i as int]));
        let a = area_of(&r);
        let ghost o = out@;
        let mut j: usize = out.len();
        assert(o.subrange(0, j as int) =~= o);
        while j > 0
            invariant_except_break
                area_pos(o.subrange(0, j as int), r) == area_pos(o, r),
            invariant
                out@ == o,
                j <= o.len(),
                all_of(o, |r: Rect| bounded(r)),
                a == r.area(),
            ensures
                j == area_pos(o, r),
            decreases j,
        {
            let space = out[j - 1];
            assert(bounded(o[j - 1]));
            assert(o.subrange(0, j as int).last() == space);
            if area_of(&space) >= a {
                break;
            }
            assert(o.subrange(0, j as int).drop_last() =~= o.subrange(0, j - 1));
            j -= 1;
        }
        proof {
            lemma_area_pos(o, r);
            assert(v@.subrange(0, i + 1).drop_last() =~= v@.subrange(0, i as int));
        }
        out.insert(j, r);
        assert forall|k: int| 0 <= k < out@.len() implies bounded(#[trigger] out@[k]) by {
            if k < j {
                assert(out@[k] == o[k]);
            } else if k > j {
                assert(out@[k] == o[k - 1]);
            }
        }
        i += 1;
    }
    assert(v@.subrange(0, v@.len() as int) =~= v@);
    out
}

impl Spaces {
    pub open spec fn wf(&self) -> bool {
        spaces_wf(self@)
    }

    /// The free space of an empty texture of `size`: the whole texture.
    pub fn new(size: [usize; 2]) -> (r: Spaces)
        requires
            1 <= size[0] <= MAX_TEXTURE_SIZE,
            1 <= size[1] <= MAX_TEXTURE_SIZE,
        ensures
            r.wf(),
            r@ == seq![Rect { size, position: [0, 0] }],
    {
        let rect = Rect { size, position: [0, 0] };
        let r = Spaces { spaces: vec![rect] };
        assert(r@ =~= seq![rect]);
        r
    }

    /// The first free rectangle, by ascending area and then width, that is at
    /// least `size[0] × size[1]`.
    pub fn find_space(&self, size: [usize; 2]) -> (r: Option<Rect>)
        ensures
            r == first_fit(self@, size[0] as int, size[1] as int),
    {
        let ghost s = self@;
        let mut i: usize = 0;
        assert(s.subrange(0, s.len() as int) =~= s);
        while i < self.spaces.len()
            invariant
                s == self@,
                i <= s.len(),
                first_fit(s.subrange(i as int, s.len() as int), size[0] as int, size[1] as int)
                    == first_fit(s, size[0] as int, size[1] as int),
            decreases s.len() - i,
        {
            let r = self.spaces[i];
            assert(s.subrange(i as int, s.len() as int).drop_first() =~= s.subrange(
                i + 1,
                s.len() as int,
            ));
            if r.size[0] >= size[0] && r.size[1] >= size[1] {
                return Some(r);
            }
            i += 1;
        }
        None
    }
    /// Records `new_space` as free unless a free rectangle already contains it.
    pub fn add(&mut self, new_space: Rect)
        requires
            old(self).wf(),
            bounded(new_space),
        ensures
            final(self).wf(),
            final(self)@ == added(old(self)@, new_space),
    {
        let ghost s = self@;
        let n = self.spaces.len();
        let mut i: usize = 0;
        while i < n
            invariant
                s == self@,
                self.wf(),
                n == s.len(),
                i <= n,
                bounded(new_space),
                forall|k: int| 0 <= k < i ==> !(#[trigger] s[k]).contains(new_space),
            decreases n - i,
        {
            let space = self.spaces[i];
            if space.includes(&new_space) {
                return;
            }
            i += 1;
        }
        let area = area_of(&new_space);
        let width = new_space.size[0];
        let mut j: usize = n;
        assert(s.subrange(0, n as int) =~= s);
        while j > 0
            invariant_except_break
                upper_bound(s.subrange(0, j as int), new_space) == upper_bound(s, new_space),
            invariant
                s == self@,
                self.wf(),
                n == s.len(),
                j <= n,
                bounded(new_space),
                area == new_space.area(),
                width == new_space.width(),
            ensures
                j == upper_bound(s, new_space),
            decreases j,
        {
            let space = self.spaces[j - 1];
            let a = area_of(&space);
            assert(s.subrange(0, j as int).last() == space);
            if a < area || (a == area && space.size[0] <= width) {
                break;
            }
            assert(s.subrange(0, j as int).drop_last() =~= s.subrange(0, j - 1));
            j -= 1;
        }
        proof {
            lemma_added_wf(s, new_space);
        }
        self.spaces.insert(j, new_space);
    }
    /// Takes `other` out of the free space: every free rectangle that intersects
    /// it is replaced by its strips outside it, which are then recorded largest
    /// first.
    pub fn exclude(&mut self, other: &Rect)
        requires
            old(self).wf(),
            other.edges_fit(),
        ensures
            final(self).wf(),
            final(self)@ == excluded(old(self)@, *other),
    {
        let ghost s = self@;
        let ghost p = *other;
        let n = self.spaces.len();
        let mut kept: Vec<Rect> = Vec::new();
        let mut divided_spaces: Vec<Rect> = Vec::new();
        let mut i: usize = 0;
        while i < n
            invariant
                s == self@,
                self.wf(),
                n == s.len(),
                i <= n,
                p == *other,
                other.edges_fit(),
                kept@ == untouched(s.subrange(0, i as int), p),
                divided_spaces@ == cut_pieces(s.subrange(0, i as int), p),
            decreases n - i,
        {
            let space = self.spaces[i];
            assert(bounded(s[i as int]));
            let ghost sub = s.subrange(0, i + 1);
            proof {
                reveal(Seq::filter);
                assert(sub.drop_last() =~= s.subrange(0, i as int));
                assert(sub.last() == space);
            }
            if space.has_intersection(other) {
                let mut pieces = space.divide(other);
                divided_spaces.append(&mut pieces);
            } else {
                kept.push(space);
            }
            i += 1;
        }
        proof {
            assert(s.subrange(0, n as int) =~= s);
            lemma_cut_pieces(s, p, |r: Rect| true);
            lemma_untouched(s, p, |r: Rect| bounded(r));
            lemma_by_area_desc_all(cut_pieces(s, p), |r: Rect| bounded(r));
        }
        let sorted = sort_by_area_desc(&divided_spaces);
        self.spaces = kept;
        let mut k: usize = 0;
        while k < sorted.len()
            invariant
                k <= sorted.len(),
                self.wf(),
                sorted@ == by_area_desc(cut_pieces(s, p)),
                all_of(sorted@, |r: Rect| bounded(r)),
                self@ == added_all(untouched(s, p), sorted@.subrange(0, k as int)),
            decreases sorted.len() - k,
        {
            proof {
                assert(sorted@.subrange(0, k + 1).drop_last() =~= sorted@.subrange(0, k as int));
            }
            assert(bounded(sorted@[k as int]));
            self.add(sorted[k]);
            k += 1;
        }
        assert(sorted@.subrange(0, sorted@.len() as int) =~= sorted@);
    }
}

} // verus!
