//! The pixel surface: a rectangle of packed colors with a parallel depth buffer.
use vstd::prelude::*;
use vstd::arithmetic::div_mod::lemma_fundamental_div_mod;
use vstd::arithmetic::div_mod::lemma_fundamental_div_mod_converse;
use vstd::arithmetic::div_mod::lemma_mod_pos_bound;
use crate::color::Color;
use crate::color::BACKGROUND;
use crate::depth::Depth;
use crate::vector::UVec2;

verus! {

/// Why a surface could not be made.
#[derive(Clone, Copy, Debug, PartialEq, Eq, Structural)]
pub enum SurfaceError {
    /// The width or the height is zero.
    ZeroSize,
    /// The two buffers of `width * height` cells cannot be addressed.
    TooLarge,
    /// The pixels handed in are not `width * height` in number.
    SizeMismatch,
}

/// The most cells a surface can have: the depth buffer, at up to 64 bytes a
/// cell, must stay addressable.
pub open spec fn max_cells() -> int {
    usize::MAX as int / 128
}

/// What is wrong with a surface of `width` by `height` cells, if anything.
pub open spec fn size_fault(width: int, height: int) -> Option<SurfaceError> {
    if width == 0 || height == 0 {
        Some(SurfaceError::ZeroSize)
    } else if width * height > max_cells() {
        Some(SurfaceError::TooLarge)
    } else {
        None
    }
}

/// What is wrong with `count` pixels as the picture of a surface of `width`
/// by `height` cells, if anything.
pub open spec fn pixels_fault(count: int, width: int, height: int) -> Option<SurfaceError> {
    if size_fault(width, height).is_some() {
        size_fault(width, height)
    } else if count != width * height {
        Some(SurfaceError::SizeMismatch)
    } else {
        None
    }
}

/// The mathematical model of a surface. `pixels` is row-major with the first
/// row on top; `depth` is row-major with the first row at the bottom.
pub struct Surface {
    pub width: nat,
    pub height: nat,
    pub pixels: Seq<u32>,
    pub depth: Seq<Depth>,
}

impl Surface {
    /// Both buffers have exactly `width * height` cells, neither side is
    /// zero, and every depth is in good order.
    pub open spec fn wf(self) -> bool {
        &&& self.width > 0
        &&& self.height > 0
        &&& self.pixels.len() == self.width * self.height
        &&& self.depth.len() == self.width * self.height
        &&& forall|i: int| 0 <= i < self.depth.len() ==> (#[trigger] self.depth[i]).valid()
    }

    /// A surface on which every pixel is black and nothing has a depth yet.
    pub open spec fn blank(width: nat, height: nat) -> Surface {
        Surface {
            width,
            height,
            pixels: Seq::new(width * height, |i: int| BACKGROUND),
            depth: Seq::new(width * height, |i: int| Depth::nothing()),
        }
    }

    /// A surface that shows the given pixels and on which nothing has a depth yet.
    pub open spec fn over(pixels: Seq<u32>, width: nat, height: nat) -> Surface {
        Surface { width, height, pixels, depth: Seq::new(width * height, |i: int| Depth::nothing()) }
    }

    /// Where the pixel at `(x, y)` is stored. Callers count `y` upward from
    /// the bottom while storage runs top-down, so the row is `height - y`.
    pub open spec fn pixel_index(self, x: int, y: int) -> int {
        (self.height - y) * self.width + x
    }

    /// Where the depth of `(x, y)` is stored.
    pub open spec fn depth_index(self, x: int, y: int) -> int {
        x + y * self.width
    }

    /// Whether a write at `(x, y)` reaches the buffer: the flipped row exists
    /// or lies just past the top, and the linear index falls inside the buffer.
    pub open spec fn lands(self, x: int, y: int) -> bool {
        &&& 0 <= x
        &&& 0 <= y <= self.height
        &&& self.pixel_index(x, y) < self.width * self.height
    }

    /// Whether `(x, y)` has a depth cell: it lies inside the rectangle.
    pub open spec fn has_depth(self, x: int, y: int) -> bool {
        &&& 0 <= x < self.width
        &&& 0 <= y < self.height
    }

    /// The packed color stored for `(x, y)`.
    pub open spec fn color_of(self, x: int, y: int) -> u32 {
        self.pixels[self.pixel_index(x, y)]
    }

    /// The depth stored for `(x, y)`.
    pub open spec fn depth_of(self, x: int, y: int) -> Depth {
        self.depth[self.depth_index(x, y)]
    }

    /// Whether the pixel of `(x, y)` can be seen: the position has a depth
    /// cell and its pixel lands. The bottom row `y == 0` has depth cells, but
    /// its pixels land nowhere.
    pub open spec fn shows(self, x: int, y: int) -> bool {
        self.has_depth(x, y) && y >= 1
    }

    /// The surface after one pixel write: `word` is stored where `(x, y)`
    /// lands, and nothing changes where it does not land.
    pub open spec fn write(self, x: int, y: int, word: u32) -> Surface {
        if self.lands(x, y) {
            Surface { pixels: self.pixels.update(self.pixel_index(x, y), word), ..self }
        } else {
            self
        }
    }

    /// The surface after a clear: every pixel is black, depths are kept.
    pub open spec fn cleared(self) -> Surface {
        Surface { pixels: Seq::new(self.pixels.len(), |i: int| BACKGROUND), ..self }
    }

    /// Whether a fragment of depth `z` at `(x, y)` passes the depth test: the
    /// cell exists and holds a strictly smaller depth.
    pub open spec fn passes(self, x: int, y: int, z: Depth) -> bool {
        self.has_depth(x, y) && self.depth_of(x, y).below(z)
    }

    /// The surface after one depth-tested write: a fragment that passes
    /// records its depth and writes its pixel, any other changes nothing.
    pub open spec fn plot(self, x: int, y: int, z: Depth, word: u32) -> Surface {
        if self.passes(x, y, z) {
            Surface { depth: self.depth.update(self.depth_index(x, y), z), ..self }.write(
                x,
                y,
                word,
            )
        } else {
            self
        }
    }
}

/// A pixel surface that owns its buffers.
pub struct Drawer {
    buffer: Vec<u32>,
    zbuffer: Vec<Depth>,
    width: u32,
    height: u32,
}

impl View for Drawer {
    type V = Surface;

    closed spec fn view(&self) -> Surface {
        Surface {
            width: self.width as nat,
            height: self.height as nat,
            pixels: self.buffer@,
            depth: self.zbuffer@,
        }
    }
}

/// In a grid of `width` columns, row `row` and column `col` of a rectangle
/// with `height` rows lie at a linear index inside the rectangle.
pub proof fn lemma_cell_in_range(width: int, height: int, col: int, row: int)
    requires
        0 <= col < width,
        0 <= row < height,
    ensures
        0 <= row * width + col < width * height,
{
    assert(row * width + col < width * height) by (nonlinear_arith)
        requires
            0 <= col < width,
            0 <= row < height,
    ;
    assert(0 <= row * width) by (nonlinear_arith)
        requires
            0 <= row,
            0 < width,
    ;
}

/// Two cells of a grid with the same linear index are the same cell.
pub proof fn lemma_cell_injective(width: int, col1: int, row1: int, col2: int, row2: int)
    requires
        0 <= col1 < width,
        0 <= col2 < width,
        row1 * width + col1 == row2 * width + col2,
    ensures
        row1 == row2,
        col1 == col2,
{
    assert(row1 == row2) by (nonlinear_arith)
        requires
            0 <= col1 < width,
            0 <= col2 < width,
            row1 * width + col1 == row2 * width + col2,
    ;
}

/// A linear index inside a grid splits into the row and the column of its cell.
pub proof fn lemma_cell_of_index(width: int, height: int, i: int)
    requires
        0 < width,
        0 <= i < width * height,
    ensures
        0 <= i % width < width,
        0 <= i / width < height,
        (i / width) * width + i % width == i,
{
    lemma_fundamental_div_mod(i, width);
    lemma_mod_pos_bound(i, width);
    let q = i / width;
    let r = i % width;
    assert(q * width == width * q) by (nonlinear_arith);
    assert(0 <= q < height) by (nonlinear_arith)
        requires
            0 < width,
            0 <= i < width * height,
            i == width * q + r,
            0 <= r < width,
    ;
}

/// The linear index of a cell splits back into the cell's row and column.
pub proof fn lemma_index_of_cell(width: int, col: int, row: int)
    requires
        0 <= col < width,
    ensures
        (row * width + col) % width == col,
        (row * width + col) / width == row,
{
    lemma_fundamental_div_mod_converse(row * width + col, width, row, col);
}

impl Surface {
    /// The pixel of a position that shows lies below the top row of the
    /// buffer, and its depth cell lies inside the depth buffer.
    pub proof fn lemma_shown_cell(self, x: int, y: int)
        requires
            self.wf(),
            self.has_depth(x, y),
        ensures
            0 <= self.depth_index(x, y) < self.depth.len(),
            self.lands(x, y) <==> y >= 1,
            y >= 1 ==> self.width <= self.pixel_index(x, y) < self.pixels.len(),
    {
        let w = self.width as int;
        let h = self.height as int;
        lemma_cell_in_range(w, h, x, y);
        assert(y * w + x == x + y * w);
        if y >= 1 {
            lemma_cell_in_range(w, h, x, h - y);
            assert((h - y) * w >= w) by (nonlinear_arith)
                requires
                    h - y >= 1,
                    w > 0,
            ;
        } else {
            assert((h - y) * w + x >= w * h) by (nonlinear_arith)
                requires
                    y == 0,
                    x >= 0,
            ;
        }
    }

    /// Two surfaces of one size are the same surface if they agree on the
    /// depth of every position, on the pixel of every position that shows,
    /// and on the top row of the buffer.
    pub proof fn lemma_equal_by_cells(self, other: Surface)
        requires
            self.wf(),
            other.wf(),
            self.width == other.width,
            self.height == other.height,
            forall|x: int, y: int|
                self.has_depth(x, y) ==> #[trigger] self.depth_of(x, y) == other.depth_of(x, y),
            forall|x: int, y: int|
                self.shows(x, y) ==> #[trigger] self.color_of(x, y) == other.color_of(x, y),
            forall|i: int| 0 <= i < self.width ==> self.pixels[i] == other.pixels[i],
        ensures
            self == other,
    {
        let w = self.width as int;
        let h = self.height as int;
        assert forall|i: int| 0 <= i < self.depth.len() implies self.depth[i] == other.depth[i] by {
            lemma_cell_of_index(w, h, i);
            let x = i % w;
            let y = i / w;
            assert(self.has_depth(x, y));
            assert(self.depth_index(x, y) == i);
            assert(self.depth_of(x, y) == self.depth[i]);
            assert(other.depth_of(x, y) == other.depth[i]);
        }
        assert forall|i: int| 0 <= i < self.pixels.len() implies self.pixels[i]
            == other.pixels[i] by {
            lemma_cell_of_index(w, h, i);
            let x = i % w;
            let row = i / w;
            if row == 0 {
                assert(i < w);
            } else {
                let y = h - row;
                assert(self.shows(x, y));
                assert(self.pixel_index(x, y) == i);
                assert(self.color_of(x, y) == self.pixels[i]);
                assert(other.color_of(x, y) == other.pixels[i]);
            }
        }
        assert(self.depth =~= other.depth);
        assert(self.pixels =~= other.pixels);
    }

    /// What one depth-tested write does to each cell: a fragment that passes
    /// takes the depth cell and, where it shows, the pixel of its position;
    /// every other cell, and the top row of the buffer, stay as they were.
    pub proof fn lemma_plot_cells(self, x: int, y: int, z: Depth, word: u32)
        requires
            self.wf(),
            z.valid(),
        ensures
            self.plot(x, y, z, word).wf(),
            self.plot(x, y, z, word).width == self.width,
            self.plot(x, y, z, word).height == self.height,
            forall|cx: int, cy: int|
                self.has_depth(cx, cy) ==> #[trigger] self.plot(x, y, z, word).depth_of(cx, cy)
                    == if cx == x && cy == y && self.passes(x, y, z) {
                    z
                } else {
                    self.depth_of(cx, cy)
                },
            forall|cx: int, cy: int|
                self.shows(cx, cy) ==> #[trigger] self.plot(x, y, z, word).color_of(cx, cy)
                    == if cx == x && cy == y && self.passes(x, y, z) {
                    word
                } else {
                    self.color_of(cx, cy)
                },
            forall|i: int|
                0 <= i < self.width ==> self.plot(x, y, z, word).pixels[i] == self.pixels[i],
    {
        let t = self.plot(x, y, z, word);
        let w = self.width as int;
        let h = self.height as int;
        if self.passes(x, y, z) {
            self.lemma_shown_cell(x, y);
            assert forall|i: int| 0 <= i < t.depth.len() implies (#[trigger] t.depth[i]).valid() by {
                if i != self.depth_index(x, y) {
                    assert(t.depth[i] == self.depth[i]);
                }
            }
        }
        assert forall|cx: int, cy: int| self.has_depth(cx, cy) implies #[trigger] t.depth_of(
            cx,
            cy,
        ) == if cx == x && cy == y && self.passes(x, y, z) {
            z
        } else {
            self.depth_of(cx, cy)
        } by {
            self.lemma_shown_cell(cx, cy);
            if self.passes(x, y, z) && !(cx == x && cy == y) {
                if self.depth_index(cx, cy) == self.depth_index(x, y) {
                    lemma_cell_injective(w, cx, cy, x, y);
                }
            }
        }
        assert forall|cx: int, cy: int| self.shows(cx, cy) implies #[trigger] t.color_of(cx, cy)
            == if cx == x && cy == y && self.passes(x, y, z) {
            word
        } else {
            self.color_of(cx, cy)
        } by {
            self.lemma_shown_cell(cx, cy);
            if self.passes(x, y, z) && !(cx == x && cy == y) && y >= 1 {
                if self.pixel_index(cx, cy) == self.pixel_index(x, y) {
                    lemma_cell_injective(w, cx, h - cy, x, h - y);
                }
            }
        }
    }
}

/// Clearing twice is clearing once; after a clear every pixel is black, and
/// the depths are what they were.
pub proof fn lemma_clear_idempotent(s: Surface)
    ensures
        s.cleared().cleared() == s.cleared(),
        s.cleared().pixels.len() == s.pixels.len(),
        forall|i: int| 0 <= i < s.pixels.len() ==> s.cleared().pixels[i] == BACKGROUND,
        s.cleared().depth == s.depth,
        s.wf() ==> s.cleared().wf(),
{
    assert(s.cleared().cleared().pixels =~= s.cleared().pixels);
}

/// A write lands exactly at the heights `1` to `height`, and there for the
/// columns below `y * width`: the index is never checked against the row.
pub proof fn lemma_lands(s: Surface, x: int, y: int)
    requires
        s.wf(),
    ensures
        s.lands(x, y) <==> 1 <= y <= s.height && 0 <= x < y * s.width,
{
    let w = s.width as int;
    let h = s.height as int;
    assert((h - y) * w + x == w * h - y * w + x) by (nonlinear_arith);
    assert(y <= 0 ==> y * w <= 0) by (nonlinear_arith)
        requires
            w > 0,
    ;
}

/// A write outside the rectangle changes nothing, unless the position lands
/// all the same: at height `height`, or in a column at or beyond `width`
/// whose index runs on into a row further down.
pub proof fn lemma_write_outside(s: Surface, x: int, y: int, word: u32)
    requires
        s.wf(),
        0 <= x,
        0 <= y,
        x >= s.width || y >= s.height,
        !(y <= s.height && x < y * s.width),
    ensures
        s.write(x, y, word) == s,
{
    lemma_lands(s, x, y);
}

impl Drawer {
    /// The surface is well formed and its sides and cell count fit the
    /// machine types that hold them.
    pub closed spec fn wf(&self) -> bool {
        &&& self@.wf()
        &&& self.width as int * self.height as int <= max_cells()
    }

    /// A well-formed drawer has a well-formed surface whose sides fit `u32`.
    pub proof fn lemma_wf(&self)
        requires
            self.wf(),
        ensures
            self@.wf(),
            self@.width <= u32::MAX,
            self@.height <= u32::MAX,
            self@.width * self@.height <= max_cells(),
    {
    }

    /// Makes a surface of `width` by `height` pixels, all black, with every
    /// depth at negative infinity.
    pub fn new(width: u32, height: u32) -> (made: Result<Drawer, SurfaceError>)
        ensures
            match made {
                Ok(drawer) => {
                    &&& size_fault(width as int, height as int).is_none()
                    &&& drawer.wf()
                    &&& drawer@ == Surface::blank(width as nat, height as nat)
                },
                Err(fault) => size_fault(width as int, height as int) == Some(fault),
            },
    {
        match Self::cells(width, height) {
            Err(fault) => Err(fault),
            Ok(n) => {
                let buffer: Vec<u32> = vec![BACKGROUND; n];
                let zbuffer: Vec<Depth> = vec![Depth::neg_infinity(); n];
                let drawer = Drawer { buffer, zbuffer, width, height };
                proof {
                    assert(drawer@.pixels =~= Surface::blank(width as nat, height as nat).pixels);
                    assert(drawer@.depth =~= Surface::blank(width as nat, height as nat).depth);
                }
                Ok(drawer)
            },
        }
    }

    /// Makes a surface of `width` by `height` pixels over a picture that
    /// exists already. The pixels are kept as they are, row-major from the
    /// top row down; every depth starts at negative infinity.
    pub fn from_pixels(pixels: Vec<u32>, width: u32, height: u32) -> (made: Result<
        Drawer,
        SurfaceError,
    >)
        ensures
            match made {
                Ok(drawer) => {
                    &&& pixels_fault(pixels@.len() as int, width as int, height as int).is_none()
                    &&& drawer.wf()
                    &&& drawer@ == Surface::over(pixels@, width as nat, height as nat)
                },
                Err(fault) => pixels_fault(pixels@.len() as int, width as int, height as int)
                    == Some(fault),
            },
    {
        match Self::cells(width, height) {
            Err(fault) => Err(fault),
            Ok(n) => {
                if pixels.len() != n {
                    return Err(SurfaceError::SizeMismatch);
                }
                let zbuffer: Vec<Depth> = vec![Depth::neg_infinity(); n];
                let drawer = Drawer { buffer: pixels, zbuffer, width, height };
                proof {
                    assert(drawer@.depth =~= Surface::over(
                        pixels@,
                        width as nat,
                        height as nat,
                    ).depth);
                }
                Ok(drawer)
            },
        }
    }

    /// The number of cells of a surface of the given size, if it can be made.
    fn cells(width: u32, height: u32) -> (count: Result<usize, SurfaceError>)
        ensures
            match count {
                Ok(n) => size_fault(width as int, height as int).is_none() && n == width * height,
                Err(fault) => size_fault(width as int, height as int) == Some(fault),
            },
    {
        if width == 0 || height == 0 {
            return Err(SurfaceError::ZeroSize);
        }
        assert(width as u64 * height as u64 <= 0xffff_ffff * 0xffff_ffff) by (nonlinear_arith);
        let cells: u64 = width as u64 * height as u64;
        let limit: usize = usize::MAX / 128;
        if cells > limit as u64 {
            return Err(SurfaceError::TooLarge);
        }
        Ok(cells as usize)
    }

    /// Hands the finished picture over, row-major from the top row down.
    pub fn finish(self) -> (pixels: Vec<u32>)
        ensures
            pixels@ == self@.pixels,
    {
        self.buffer
    }

    /// The width and the height of the surface, in that order.
    pub fn screen_size(&self) -> (size: UVec2)
        ensures
            size.x == self@.width,
            size.y == self@.height,
    {
        UVec2 { x: self.width, y: self.height }
    }

    /// Resets every pixel to black in one pass. Depths are left as they are.
    pub fn clear(&mut self)
        requires
            old(self).wf(),
        ensures
            final(self).wf(),
            final(self)@ == old(self)@.cleared(),
    {
        let n: usize = self.buffer.len();
        let mut i: usize = 0;
        while i < n
            invariant
                i <= n,
                n == self.buffer.len(),
                self.buffer.len() == old(self).buffer.len(),
                self.zbuffer == old(self).zbuffer,
                self.width == old(self).width,
                self.height == old(self).height,
                forall|k: int| 0 <= k < i ==> self.buffer[k] == BACKGROUND,
            decreases n - i,
        {
            self.buffer[i] = BACKGROUND;
            i += 1;
        }
        assert(self@.pixels =~= old(self)@.cleared().pixels);
    }

    /// Writes one pixel. The position counts `y` upward from the bottom; the
    /// color is stored where the position lands, and a position that does not
    /// land is passed over in silence.
    pub fn pixel(&mut self, pos: UVec2, color: Color)
        requires
            old(self).wf(),
        ensures
            final(self).wf(),
            final(self)@ == old(self)@.write(pos.x as int, pos.y as int, color.packed()),
    {
        match self.landing(pos) {
            Some(index) => {
                self.buffer[index] = color.pack();
            },
            None => {},
        }
    }

    /// Draws one fragment under the depth test: where the position has a depth
    /// cell that holds less than `z`, the cell takes `z` and the pixel is
    /// written; otherwise nothing changes. Says whether the fragment passed.
    /// Depths are compared exactly, as fractions.
    pub fn plot(&mut self, pos: UVec2, z: Depth, color: Color) -> (drawn: bool)
        requires
            old(self).wf(),
            z.valid(),
        ensures
            final(self).wf(),
            drawn == old(self)@.passes(pos.x as int, pos.y as int, z),
            final(self)@ == old(self)@.plot(pos.x as int, pos.y as int, z, color.packed()),
    {
        if pos.x >= self.width || pos.y >= self.height {
            return false;
        }
        proof {
            lemma_cell_in_range(
                self.width as int,
                self.height as int,
                pos.x as int,
                pos.y as int,
            );
        }
        let index: usize = (pos.x as u64 + pos.y as u64 * self.width as u64) as usize;
        let ghost before = self@;
        if self.zbuffer[index].is_below(z) {
            self.zbuffer[index] = z;
            proof {
                before.lemma_plot_cells(pos.x as int, pos.y as int, z, color.packed());
                assert forall|i: int| 0 <= i < self@.depth.len() implies (
                #[trigger] self@.depth[i]).valid() by {
                    if i != index {
                        assert(self@.depth[i] == before.depth[i]);
                    }
                }
            }
            self.pixel(pos, color);
            true
        } else {
            false
        }
    }

    /// The packed color stored for the position, if the position lands.
    pub fn get(&self, pos: UVec2) -> (word: Option<u32>)
        requires
            self.wf(),
        ensures
            word == if self@.lands(pos.x as int, pos.y as int) {
                Some(self@.pixels[self@.pixel_index(pos.x as int, pos.y as int)])
            } else {
                None
            },
    {
        match self.landing(pos) {
            Some(index) => Some(self.buffer[index]),
            None => None,
        }
    }

    /// Where in the buffer a write at the position lands, if it lands.
    fn landing(&self, pos: UVec2) -> (index: Option<usize>)
        requires
            self.wf(),
        ensures
            index == if self@.lands(pos.x as int, pos.y as int) {
                Some(self@.pixel_index(pos.x as int, pos.y as int) as usize)
            } else {
                None
            },
            self@.lands(pos.x as int, pos.y as int) ==> 0 <= self@.pixel_index(
                pos.x as int,
                pos.y as int,
            ) < self.buffer.len(),
    {
        if pos.y > self.height {
            return None;
        }
        let row: u64 = (self.height - pos.y) as u64;
        let width: u64 = self.width as u64;
        let height: u64 = self.height as u64;
        assert(row * width <= 0xffff_ffff * 0xffff_ffff) by (nonlinear_arith)
            requires
                row <= 0xffff_ffff,
                width <= 0xffff_ffff,
        ;
        assert(width * height <= 0xffff_ffff * 0xffff_ffff) by (nonlinear_arith)
            requires
                height <= 0xffff_ffff,
                width <= 0xffff_ffff,
        ;
        let index: u64 = row * width + pos.x as u64;
        if index < width * height {
            Some(index as usize)
        } else {
            None
        }
    }

    /// The depth stored for the position, if it has a depth cell.
    pub fn depth_at(&self, pos: UVec2) -> (depth: Option<Depth>)
        requires
            self.wf(),
        ensures
            depth == if self@.has_depth(pos.x as int, pos.y as int) {
                Some(self@.depth[self@.depth_index(pos.x as int, pos.y as int)])
            } else {
                None
            },
    {
        if pos.x >= self.width || pos.y >= self.height {
            return None;
        }
        proof {
            lemma_cell_in_range(
                self.width as int,
                self.height as int,
                pos.x as int,
                pos.y as int,
            );
        }
        let index: usize = (pos.x as u64 + pos.y as u64 * self.width as u64) as usize;
        Some(self.zbuffer[index])
    }
}

} // verus!
