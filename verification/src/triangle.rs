//! Filling a triangle with one color under the depth test.
use vstd::prelude::*;
use crate::color::Color;
use crate::depth::lemma_below_is_total;
use crate::depth::lemma_below_is_transitive;
use crate::geometry::covers;
use crate::geometry::depth_at;
use crate::geometry::fragment;
use crate::geometry::lemma_covered_point_is_bounded;
use crate::geometry::max3;
use crate::geometry::min3;
use crate::surface::lemma_index_of_cell;
use crate::surface::Drawer;
use crate::surface::Surface;
use crate::vector::IVec2;
use crate::vector::IVec3;
use crate::vector::Point;
use crate::vector::UVec2;

verus! {

/// The rectangle of positions that a fill visits: the bounding box of the
/// three corners, cut off below at zero and above at the size of the
/// surface. Both ends belong to it.
pub struct Scan {
    pub lo_x: int,
    pub hi_x: int,
    pub lo_y: int,
    pub hi_y: int,
}

impl Scan {
    /// The rectangle visited for the triangle `pts` on a surface of the given size.
    pub open spec fn of(pts: [IVec3; 3], width: int, height: int) -> Scan {
        let least_x = min3(pts[0].x as int, pts[1].x as int, pts[2].x as int);
        let most_x = max3(pts[0].x as int, pts[1].x as int, pts[2].x as int);
        let least_y = min3(pts[0].y as int, pts[1].y as int, pts[2].y as int);
        let most_y = max3(pts[0].y as int, pts[1].y as int, pts[2].y as int);
        Scan {
            lo_x: if least_x > 0 {
                least_x
            } else {
                0
            },
            hi_x: if most_x < width {
                most_x
            } else {
                width
            },
            lo_y: if least_y > 0 {
                least_y
            } else {
                0
            },
            hi_y: if most_y < height {
                most_y
            } else {
                height
            },
        }
    }

    /// Whether the rectangle holds the position, its ends included.
    pub open spec fn contains(self, x: int, y: int) -> bool {
        self.lo_x <= x <= self.hi_x && self.lo_y <= y <= self.hi_y
    }

    /// Whether a column-by-column walk that now stands at `(x, y)` has left
    /// the position `(cx, cy)` behind.
    pub open spec fn passed(self, cx: int, cy: int, x: int, y: int) -> bool {
        self.contains(cx, cy) && (cx < x || (cx == x && cy < y))
    }
}

/// Whether the fragment of the triangle `pts` at `(x, y)` is drawn on the
/// surface `s`: the position has a depth cell, the triangle covers it, and
/// the cell holds a strictly smaller depth than the triangle has there.
pub open spec fn wins(s: Surface, pts: [IVec3; 3], x: int, y: int) -> bool {
    &&& s.has_depth(x, y)
    &&& covers(pts, Point { x, y })
    &&& s.depth_of(x, y).below(depth_at(pts, Point { x, y }))
}

/// A fragment wins only at a position of the rectangle that the fill visits:
/// a triangle covers no position outside the bounding box of its corners.
pub proof fn lemma_winner_is_visited(s: Surface, pts: [IVec3; 3], x: int, y: int)
    requires
        wins(s, pts, x, y),
    ensures
        Scan::of(pts, s.width as int, s.height as int).contains(x, y),
{
    lemma_covered_point_is_bounded(pts, Point { x, y });
}

impl Surface {
    /// The surface after the triangle `pts` was filled with the packed color
    /// `word`. Every position is decided on its own: where the fragment wins,
    /// the depth cell takes the triangle's depth and the pixel takes `word`;
    /// everything else is as before. The top row of the buffer belongs to
    /// positions of height `height`, which have no depth cell, and is never drawn.
    pub open spec fn filled(self, pts: [IVec3; 3], word: u32) -> Surface {
        Surface {
            width: self.width,
            height: self.height,
            pixels: Seq::new(
                self.pixels.len(),
                |i: int|
                    {
                        let x = i % (self.width as int);
                        let y = self.height - i / (self.width as int);
                        if wins(self, pts, x, y) {
                            word
                        } else {
                            self.pixels[i]
                        }
                    },
            ),
            depth: Seq::new(
                self.depth.len(),
                |i: int|
                    {
                        let x = i % (self.width as int);
                        let y = i / (self.width as int);
                        if wins(self, pts, x, y) {
                            depth_at(pts, Point { x, y })
                        } else {
                            self.depth[i]
                        }
                    },
            ),
        }
    }

    /// Whether `self` is what a fill of `from` has made of it once the walk
    /// stands at `(x, y)`: the positions left behind are decided, the others
    /// untouched.
    spec fn filled_up_to(
        self,
        from: Surface,
        pts: [IVec3; 3],
        word: u32,
        scan: Scan,
        x: int,
        y: int,
    ) -> bool {
        &&& self.wf()
        &&& self.width == from.width
        &&& self.height == from.height
        &&& forall|cx: int, cy: int|
            from.has_depth(cx, cy) ==> #[trigger] self.depth_of(cx, cy) == if scan.passed(
                cx,
                cy,
                x,
                y,
            ) && wins(from, pts, cx, cy) {
                depth_at(pts, Point { x: cx, y: cy })
            } else {
                from.depth_of(cx, cy)
            }
        &&& forall|cx: int, cy: int|
            from.shows(cx, cy) ==> #[trigger] self.color_of(cx, cy) == if scan.passed(
                cx,
                cy,
                x,
                y,
            ) && wins(from, pts, cx, cy) {
                word
            } else {
                from.color_of(cx, cy)
            }
        &&& forall|i: int| 0 <= i < from.width ==> self.pixels[i] == from.pixels[i]
    }

    /// What a fill does to each position: see `filled`.
    pub proof fn lemma_filled_cells(self, pts: [IVec3; 3], word: u32)
        requires
            self.wf(),
        ensures
            self.filled(pts, word).wf(),
            self.filled(pts, word).width == self.width,
            self.filled(pts, word).height == self.height,
            forall|x: int, y: int|
                self.has_depth(x, y) ==> #[trigger] self.filled(pts, word).depth_of(x, y)
                    == if wins(self, pts, x, y) {
                    depth_at(pts, Point { x, y })
                } else {
                    self.depth_of(x, y)
                },
            forall|x: int, y: int|
                self.shows(x, y) ==> #[trigger] self.filled(pts, word).color_of(x, y) == if wins(
                    self,
                    pts,
                    x,
                    y,
                ) {
                    word
                } else {
                    self.color_of(x, y)
                },
            forall|i: int| 0 <= i < self.width ==> self.filled(pts, word).pixels[i] == self.pixels[i],
    {
        let t = self.filled(pts, word);
        let w = self.width as int;
        let h = self.height as int;
        assert forall|i: int| 0 <= i < t.depth.len() implies (#[trigger] t.depth[i]).valid() by {
            if wins(self, pts, i % w, i / w) {
                lemma_covered_point_is_bounded(pts, Point { x: i % w, y: i / w });
            } else {
                assert(t.depth[i] == self.depth[i]);
            }
        }
        assert forall|x: int, y: int| self.has_depth(x, y) implies #[trigger] t.depth_of(x, y)
            == if wins(self, pts, x, y) {
            depth_at(pts, Point { x, y })
        } else {
            self.depth_of(x, y)
        } by {
            self.lemma_shown_cell(x, y);
            lemma_index_of_cell(w, x, y);
            assert(y * w + x == x + y * w);
        }
        assert forall|x: int, y: int| self.shows(x, y) implies #[trigger] t.color_of(x, y)
            == if wins(self, pts, x, y) {
            word
        } else {
            self.color_of(x, y)
        } by {
            self.lemma_shown_cell(x, y);
            lemma_index_of_cell(w, x, h - y);
        }
        assert forall|i: int| 0 <= i < self.width implies t.pixels[i] == self.pixels[i] by {
            lemma_index_of_cell(w, i, 0);
            assert(0 * w + i == i);
            assert(w <= w * h) by (nonlinear_arith)
                requires
                    w > 0,
                    h >= 1,
            ;
        }
    }

    /// A surface on which a walk over the whole rectangle has decided every
    /// position is the filled surface.
    proof fn lemma_filled_when_done(
        self,
        from: Surface,
        pts: [IVec3; 3],
        word: u32,
        x: int,
    )
        requires
            from.wf(),
            x > Scan::of(pts, from.width as int, from.height as int).hi_x,
            self.filled_up_to(
                from,
                pts,
                word,
                Scan::of(pts, from.width as int, from.height as int),
                x,
                Scan::of(pts, from.width as int, from.height as int).lo_y,
            ),
        ensures
            self == from.filled(pts, word),
    {
        let t = from.filled(pts, word);
        let w = from.width as int;
        let h = from.height as int;
        let scan = Scan::of(pts, w, h);
        from.lemma_filled_cells(pts, word);
        assert forall|cx: int, cy: int| wins(from, pts, cx, cy) implies scan.passed(
            cx,
            cy,
            x,
            scan.lo_y,
        ) by {
            lemma_winner_is_visited(from, pts, cx, cy);
        }
        self.lemma_equal_by_cells(t);
    }
}

/// Of two triangles that cover a position, the one with the greater depth
/// there gives the position its depth and its color, whichever is drawn
/// first and however little the two depths differ. This holds of a position
/// that shows and whose cell held a smaller depth than the greater of the
/// two before either was drawn.
pub proof fn lemma_greater_depth_wins(
    s: Surface,
    near: [IVec3; 3],
    near_word: u32,
    far: [IVec3; 3],
    far_word: u32,
    x: int,
    y: int,
)
    requires
        s.wf(),
        s.shows(x, y),
        covers(near, Point { x, y }),
        covers(far, Point { x, y }),
        depth_at(far, Point { x, y }).below(depth_at(near, Point { x, y })),
        s.depth_of(x, y).below(depth_at(near, Point { x, y })),
    ensures
        s.filled(near, near_word).filled(far, far_word).color_of(x, y) == near_word,
        s.filled(far, far_word).filled(near, near_word).color_of(x, y) == near_word,
        s.filled(near, near_word).filled(far, far_word).depth_of(x, y) == depth_at(
            near,
            Point { x, y },
        ),
        s.filled(far, far_word).filled(near, near_word).depth_of(x, y) == depth_at(
            near,
            Point { x, y },
        ),
{
    lemma_covered_point_is_bounded(near, Point { x, y });
    lemma_covered_point_is_bounded(far, Point { x, y });
    s.lemma_filled_cells(near, near_word);
    s.lemma_filled_cells(far, far_word);
    s.filled(near, near_word).lemma_filled_cells(far, far_word);
    s.filled(far, far_word).lemma_filled_cells(near, near_word);
    s.lemma_shown_cell(x, y);
    lemma_below_is_total(depth_at(far, Point { x, y }), depth_at(near, Point { x, y }));
}

/// Two fills in either order leave the same depth and the same pixel at a
/// position, provided that the two triangles do not meet there at one and
/// the same depth.
pub proof fn lemma_fill_order(
    s: Surface,
    a: [IVec3; 3],
    a_word: u32,
    b: [IVec3; 3],
    b_word: u32,
    x: int,
    y: int,
)
    requires
        s.wf(),
        s.has_depth(x, y),
        covers(a, Point { x, y }) && covers(b, Point { x, y }) ==> !depth_at(
            a,
            Point { x, y },
        ).same(depth_at(b, Point { x, y })),
    ensures
        s.filled(a, a_word).filled(b, b_word).depth_of(x, y) == s.filled(b, b_word).filled(
            a,
            a_word,
        ).depth_of(x, y),
        s.shows(x, y) ==> s.filled(a, a_word).filled(b, b_word).color_of(x, y) == s.filled(
            b,
            b_word,
        ).filled(a, a_word).color_of(x, y),
{
    let p = Point { x, y };
    let za = depth_at(a, p);
    let zb = depth_at(b, p);
    let z0 = s.depth_of(x, y);
    s.lemma_shown_cell(x, y);
    s.lemma_filled_cells(a, a_word);
    s.lemma_filled_cells(b, b_word);
    s.filled(a, a_word).lemma_filled_cells(b, b_word);
    s.filled(b, b_word).lemma_filled_cells(a, a_word);
    if covers(a, p) && covers(b, p) {
        lemma_covered_point_is_bounded(a, p);
        lemma_covered_point_is_bounded(b, p);
        lemma_below_is_total(za, zb);
        lemma_below_is_total(z0, za);
        lemma_below_is_total(z0, zb);
        if za.below(zb) {
            if z0.below(za) {
                lemma_below_is_transitive(z0, za, zb);
            }
            if !z0.below(zb) && z0.below(za) {
                lemma_below_is_transitive(z0, za, zb);
            }
        } else {
            if z0.below(zb) {
                lemma_below_is_transitive(z0, zb, za);
            }
        }
    }
}

/// Two fills in either order leave the same surface, provided that the two
/// triangles meet nowhere at one and the same depth.
pub proof fn lemma_fills_commute(
    s: Surface,
    a: [IVec3; 3],
    a_word: u32,
    b: [IVec3; 3],
    b_word: u32,
)
    requires
        s.wf(),
        forall|x: int, y: int|
            s.has_depth(x, y) && #[trigger] covers(a, Point { x, y }) && covers(b, Point { x, y })
                ==> !depth_at(a, Point { x, y }).same(depth_at(b, Point { x, y })),
    ensures
        s.filled(a, a_word).filled(b, b_word) == s.filled(b, b_word).filled(a, a_word),
{
    let ab = s.filled(a, a_word).filled(b, b_word);
    let ba = s.filled(b, b_word).filled(a, a_word);
    s.lemma_filled_cells(a, a_word);
    s.lemma_filled_cells(b, b_word);
    s.filled(a, a_word).lemma_filled_cells(b, b_word);
    s.filled(b, b_word).lemma_filled_cells(a, a_word);
    assert forall|x: int, y: int| s.has_depth(x, y) implies #[trigger] ab.depth_of(x, y)
        == ba.depth_of(x, y) by {
        lemma_fill_order(s, a, a_word, b, b_word, x, y);
    }
    assert forall|x: int, y: int| s.shows(x, y) implies #[trigger] ab.color_of(x, y)
        == ba.color_of(x, y) by {
        lemma_fill_order(s, a, a_word, b, b_word, x, y);
    }
    assert forall|i: int| 0 <= i < s.width implies ab.pixels[i] == ba.pixels[i] by {
        assert(s.filled(a, a_word).pixels[i] == s.pixels[i]);
        assert(s.filled(b, b_word).pixels[i] == s.pixels[i]);
    }
    ab.lemma_equal_by_cells(ba);
}

/// A fill never lowers a depth, and changes a pixel only where it raises
/// the depth of the pixel's position.
pub proof fn lemma_fill_raises_depth(s: Surface, pts: [IVec3; 3], word: u32, x: int, y: int)
    requires
        s.wf(),
        s.has_depth(x, y),
    ensures
        !s.filled(pts, word).depth_of(x, y).below(s.depth_of(x, y)),
        s.shows(x, y) && !s.depth_of(x, y).below(s.filled(pts, word).depth_of(x, y)) ==> s.filled(
            pts,
            word,
        ).color_of(x, y) == s.color_of(x, y),
{
    if covers(pts, Point { x, y }) {
        lemma_covered_point_is_bounded(pts, Point { x, y });
    }
    s.lemma_filled_cells(pts, word);
    lemma_below_is_total(s.depth_of(x, y), depth_at(pts, Point { x, y }));
}

/// The least of three coordinates.
fn least(a: i32, b: i32, c: i32) -> (m: i32)
    ensures
        m == min3(a as int, b as int, c as int),
{
    if a <= b && a <= c {
        a
    } else if b <= c {
        b
    } else {
        c
    }
}

/// The greatest of three coordinates.
fn greatest(a: i32, b: i32, c: i32) -> (m: i32)
    ensures
        m == max3(a as int, b as int, c as int),
{
    if a >= b && a >= c {
        a
    } else if b >= c {
        b
    } else {
        c
    }
}

impl Drawer {
    /// Fills the triangle `pts` with `color`. Each position of the clamped
    /// bounding box that the triangle covers yields a fragment with the
    /// triangle's depth there, drawn under the depth test: the greater depth
    /// wins, and of two equal depths the one drawn first.
    pub fn triangle(&mut self, pts: [IVec3; 3], color: Color)
        requires
            old(self).wf(),
        ensures
            final(self).wf(),
            final(self)@ == old(self)@.filled(pts, color.packed()),
    {
        let size = self.screen_size();
        let ghost from = self@;
        let ghost word = color.packed();
        let ghost scan = Scan::of(pts, size.x as int, size.y as int);
        proof {
            self.lemma_wf();
        }
        let least_x: i32 = least(pts[0].x, pts[1].x, pts[2].x);
        let most_x: i32 = greatest(pts[0].x, pts[1].x, pts[2].x);
        let least_y: i32 = least(pts[0].y, pts[1].y, pts[2].y);
        let most_y: i32 = greatest(pts[0].y, pts[1].y, pts[2].y);
        let lo_x: i64 = if least_x > 0 {
            least_x as i64
        } else {
            0
        };
        let hi_x: i64 = if (most_x as i64) < size.x as i64 {
            most_x as i64
        } else {
            size.x as i64
        };
        let lo_y: i64 = if least_y > 0 {
            least_y as i64
        } else {
            0
        };
        let hi_y: i64 = if (most_y as i64) < size.y as i64 {
            most_y as i64
        } else {
            size.y as i64
        };
        let mut x: i64 = lo_x;
        while x <= hi_x
            invariant
                self.wf(),
                from.wf(),
                from.width == size.x,
                from.height == size.y,
                word == color.packed(),
                scan == Scan::of(pts, size.x as int, size.y as int),
                scan.lo_x == lo_x,
                scan.hi_x == hi_x,
                scan.lo_y == lo_y,
                scan.hi_y == hi_y,
                0 <= lo_x <= x,
                x <= hi_x + 1 || x == lo_x,
                hi_x <= i32::MAX,
                0 <= lo_y,
                hi_y <= i32::MAX,
                self@.filled_up_to(from, pts, word, scan, x as int, lo_y as int),
            decreases hi_x + 1 - x,
        {
            let mut y: i64 = lo_y;
            while y <= hi_y
                invariant
                    self.wf(),
                    from.wf(),
                    from.width == size.x,
                    from.height == size.y,
                    word == color.packed(),
                    scan == Scan::of(pts, size.x as int, size.y as int),
                    scan.lo_x == lo_x,
                    scan.hi_x == hi_x,
                    scan.lo_y == lo_y,
                    scan.hi_y == hi_y,
                    0 <= lo_x <= x <= hi_x,
                    hi_x <= i32::MAX,
                    0 <= lo_y <= y,
                    y <= hi_y + 1 || y == lo_y,
                    hi_y <= i32::MAX,
                    self@.filled_up_to(from, pts, word, scan, x as int, y as int),
                decreases hi_y + 1 - y,
            {
                let at = IVec2 { x: x as i32, y: y as i32 };
                let ghost before = self@;
                match fragment(pts, at) {
                    Some(z) => {
                        self.plot(UVec2 { x: x as u32, y: y as u32 }, z, color);
                        proof {
                            before.lemma_plot_cells(x as int, y as int, z, word);
                            assert(at@ == Point { x: x as int, y: y as int });
                            assert(before.passes(x as int, y as int, z) == wins(
                                from,
                                pts,
                                x as int,
                                y as int,
                            ));
                        }
                    },
                    None => {
                        proof {
                            assert(at@ == Point { x: x as int, y: y as int });
                        }
                    },
                }
                y += 1;
            }
            x += 1;
        }
        proof {
            self@.lemma_filled_when_done(from, pts, word, x as int);
        }
    }
}

} // verus!
