use vstd::prelude::*;

verus! {

/// An axis-aligned rectangle covering the half-open area
/// `[x, x + w) × [y, y + h)`, with `position == [x, y]` and `size == [w, h]`.
#[derive(Clone, Copy, Debug, PartialEq, Eq)]
pub struct Rect {
    pub size: [usize; 2],
    pub position: [usize; 2],
}

/// Builds the rectangle with top-left corner `(x, y)` and size `w × h`.
pub open spec fn rect_at(x: int, y: int, w: int, h: int) -> Rect {
    Rect { size: [w as usize, h as usize], position: [x as usize, y as usize] }
}

impl Rect {
    pub open spec fn left(self) -> int {
        self.position[0] as int
    }

    pub open spec fn top(self) -> int {
        self.position[1] as int
    }

    pub open spec fn width(self) -> int {
        self.size[0] as int
    }

    pub open spec fn height(self) -> int {
        self.size[1] as int
    }

    pub open spec fn right(self) -> int {
        self.left() + self.width()
    }

    pub open spec fn bottom(self) -> int {
        self.top() + self.height()
    }

    pub open spec fn area(self) -> int {
        self.width() * self.height()
    }

    /// The far edges are representable as `usize`.
    pub open spec fn edges_fit(self) -> bool {
        self.right() <= usize::MAX && self.bottom() <= usize::MAX
    }

    /// The open interiors overlap; rectangles that only share an edge do not intersect.
    pub open spec fn intersects(self, o: Rect) -> bool {
        &&& self.right() > o.left()
        &&& o.right() > self.left()
        &&& self.bottom() > o.top()
        &&& o.bottom() > self.top()
    }

    /// Every point of `o` lies in `self`.
    pub open spec fn contains(self, o: Rect) -> bool {
        &&& self.left() <= o.left()
        &&& o.right() <= self.right()
        &&& self.top() <= o.top()
        &&& o.bottom() <= self.bottom()
    }

    /// The point `(px, py)` lies in the rectangle.
    pub open spec fn covers(self, px: int, py: int) -> bool {
        self.left() <= px < self.right() && self.top() <= py < self.bottom()
    }

    /// The strip of `self` left of `c`, if `c`'s left edge cuts through `self`.
    pub open spec fn left_strip(self, c: Rect) -> Seq<Rect> {
        if self.left() < c.left() < self.right() {
            seq![rect_at(self.left(), self.top(), c.left() - self.left(), self.height())]
        } else {
            seq![]
        }
    }

    /// The strip of `self` right of `c`, if `c`'s right edge cuts through `self`.
    pub open spec fn right_strip(self, c: Rect) -> Seq<Rect> {
        if self.left() < c.right() < self.right() {
            seq![rect_at(c.right(), self.top(), self.right() - c.right(), self.height())]
        } else {
            seq![]
        }
    }

    /// The strip of `self` above `c`, if `c`'s top edge cuts through `self`.
    pub open spec fn top_strip(self, c: Rect) -> Seq<Rect> {
        if self.top() < c.top() < self.bottom() {
            seq![rect_at(self.left(), self.top(), self.width(), c.top() - self.top())]
        } else {
            seq![]
        }
    }

    /// The strip of `self` below `c`, if `c`'s bottom edge cuts through `self`.
    pub open spec fn bottom_strip(self, c: Rect) -> Seq<Rect> {
        if self.top() < c.bottom() < self.bottom() {
            seq![rect_at(self.left(), c.bottom(), self.width(), self.bottom() - c.bottom())]
        } else {
            seq![]
        }
    }

    /// What remains of `self` once `c` is taken out, as up to four strips that
    /// may overlap one another: left, right, top, bottom, in that order. With no
    /// strip, `self` itself remains when it does not intersect `c`, and nothing
    /// when it lies inside `c`.
    pub open spec fn divided(self, c: Rect) -> Seq<Rect> {
        let strips = self.left_strip(c) + self.right_strip(c) + self.top_strip(c)
            + self.bottom_strip(c);
        if strips.len() == 0 && !self.intersects(c) {
            seq![self]
        } else {
            strips
        }
    }

    /// Whether the two rectangles overlap in more than an edge.
    pub fn has_intersection(&self, other: &Rect) -> (r: bool)
        requires
            self.edges_fit(),
            other.edges_fit(),
        ensures
            r == self.intersects(*other),
    {
        let x = self.position[0];
        let y = self.position[1];
        let ox = other.position[0];
        let oy = other.position[1];
        x + self.size[0] > ox && ox + other.size[0] > x && y + self.size[1] > oy && oy
            + other.size[1] > y
    }

    /// Whether `other` lies wholly inside `self`.
    pub fn includes(&self, other: &Rect) -> (r: bool)
        requires
            self.edges_fit(),
            other.edges_fit(),
        ensures
            r == self.contains(*other),
    {
        let x = self.position[0];
        let y = self.position[1];
        let ox = other.position[0];
        let oy = other.position[1];
        x <= ox && ox + other.size[0] <= x + self.size[0] && y <= oy && oy + other.size[1] <= y
            + self.size[1]
    }

    /// The strips of `self` left once `other` is cut out of it.
    pub fn divide(&self, other: &Rect) -> (r: Vec<Rect>)
        requires
            self.edges_fit(),
            other.edges_fit(),
        ensures
            r@ == self.divided(*other),
    {
        let mut rects: Vec<Rect> = Vec::with_capacity(2);
        let w = other.size[0];
        let h = other.size[1];
        let x = other.position[0];
        let y = other.position[1];
        let rx = self.position[0];
        let ry = self.position[1];
        let rw = self.size[0];
        let rh = self.size[1];
        let ghost c = *other;
        let ghost s = *self;

        if rx < x && x < rx + rw {
            rects.push(Rect { size: [x - rx, rh], position: [rx, ry] });
        }
        assert(rects@ =~= s.left_strip(c));
        if rx < x + w && x + w < rx + rw {
            rects.push(Rect { size: [rx + rw - (x + w), rh], position: [x + w, ry] });
        }
        assert(rects@ =~= s.left_strip(c) + s.right_strip(c));
        if ry < y && y < ry + rh {
            rects.push(Rect { size: [rw, y - ry], position: [rx, ry] });
        }
        assert(rects@ =~= s.left_strip(c) + s.right_strip(c) + s.top_strip(c));
        if ry < y + h && y + h < ry + rh {
            rects.push(Rect { size: [rw, ry + rh - (y + h)], position: [rx, y + h] });
        }
        assert(rects@ =~= s.left_strip(c) + s.right_strip(c) + s.top_strip(c) + s.bottom_strip(c));
        if rects.len() == 0 && !self.has_intersection(other) {
            rects.push(*self);
        }
        rects
    }
}

/// Each piece that `divided` leaves lies inside the divided rectangle, keeps at
/// least one pixel in each dimension, and does not intersect the cut.
pub proof fn lemma_divided(s: Rect, c: Rect)
    requires
        s.width() >= 1,
        s.height() >= 1,
        s.edges_fit(),
        c.edges_fit(),
    ensures
        forall|k: int|
            0 <= k < s.divided(c).len() ==> {
                let t = #[trigger] s.divided(c)[k];
                &&& s.contains(t)
                &&& t.width() >= 1
                &&& t.height() >= 1
                &&& !t.intersects(c)
            },
{
    let d = s.divided(c);
    assert forall|k: int| 0 <= k < d.len() implies {
        let t = #[trigger] d[k];
        &&& s.contains(t)
        &&& t.width() >= 1
        &&& t.height() >= 1
        &&& !t.intersects(c)
    } by {
        let l = s.left_strip(c);
        let r = s.right_strip(c);
        let tp = s.top_strip(c);
        let b = s.bottom_strip(c);
        let strips = l + r + tp + b;
        if !(strips.len() == 0 && !s.intersects(c)) {
            assert(d == strips);
            let t = d[k];
            if k < l.len() {
                assert(t == l[k]);
            } else if k < l.len() + r.len() {
                assert(t == r[k - l.len()]);
            } else if k < l.len() + r.len() + tp.len() {
                assert(t == tp[k - l.len() - r.len()]);
            } else {
                assert(t == b[k - l.len() - r.len() - tp.len()]);
            }
        }
    }
}

/// When `s` intersects the cut `c`, a point of `s` outside `c` lies in one of
/// the strips that `divided` leaves.
pub proof fn lemma_divided_covers(s: Rect, c: Rect, px: int, py: int)
    requires
        s.edges_fit(),
        c.edges_fit(),
        s.intersects(c),
        s.covers(px, py),
        !c.covers(px, py),
    ensures
        exists|k: int| 0 <= k < s.divided(c).len() && (#[trigger] s.divided(c)[k]).covers(px, py),
{
    let d = s.divided(c);
    let l = s.left_strip(c);
    let r = s.right_strip(c);
    let tp = s.top_strip(c);
    let b = s.bottom_strip(c);
    assert(d == l + r + tp + b);
    if px < c.left() {
        assert(d[0] == l[0]);
    } else if px >= c.right() {
        assert(d[l.len() as int] == r[0]);
    } else if py < c.top() {
        assert(d[(l.len() + r.len()) as int] == tp[0]);
    } else {
        assert(d[(l.len() + r.len() + tp.len()) as int] == b[0]);
    }
}

} // verus!
