//! Rasterization: every body point of a shape is expanded into a square
//! block of colored pixels, ready for encoding and transmission.

use crate::snake::{wf, Snake, SnakeView};
use vstd::prelude::*;

verus! {

/// Mathematical model of a [`Pixel`].
#[verifier::ext_equal]
pub ghost struct PixelView {
    pub x: int,
    pub y: int,
    pub color: Seq<char>,
}

/// One colored pixel of the canvas.
pub struct Pixel {
    pub x: i32,
    pub y: i32,
    pub color: String,
}

impl View for Pixel {
    type V = PixelView;

    open spec fn view(&self) -> PixelView {
        PixelView { x: self.x as int, y: self.y as int, color: self.color@ }
    }
}

/// Half the block edge, rounded down: blocks are centered by shifting each
/// coordinate range down by this much.
pub open spec fn half(size: int) -> int {
    size / 2
}

/// The edge length of the block actually emitted: the half-open coordinate
/// ranges span `2 * (size / 2)` values, which is `size` itself whenever
/// `size` is even.
pub open spec fn width(size: int) -> int {
    2 * (size / 2)
}

/// One vertical column of a block: the pixels at column `x`, rows
/// `py - half(size)` up to but excluding `py + half(size)`.
pub open spec fn col_spec(x: int, py: int, size: int, color: Seq<char>) -> Seq<PixelView> {
    Seq::new(width(size) as nat, |b: int| PixelView { x, y: py - half(size) + b, color })
}

/// The first `dx` columns of the block around point `p`.
pub open spec fn block_upto(p: (int, int), size: int, color: Seq<char>, dx: int) -> Seq<PixelView>
    decreases dx,
{
    if dx <= 0 {
        Seq::empty()
    } else {
        block_upto(p, size, color, dx - 1) + col_spec(p.0 - half(size) + (dx - 1), p.1, size, color)
    }
}

/// The whole block around point `p`: a `width(size)` by `width(size)` square
/// of pixels in the shape's color, columns left to right, each column top to
/// bottom.
pub open spec fn block_spec(p: (int, int), size: int, color: Seq<char>) -> Seq<PixelView> {
    block_upto(p, size, color, width(size))
}

/// The concatenated blocks of the first `i` body points.
pub open spec fn raster_upto(s: SnakeView, i: int) -> Seq<PixelView>
    decreases i,
{
    if i <= 0 {
        Seq::empty()
    } else {
        raster_upto(s, i - 1) + block_spec(s.points[i - 1], s.size, s.color)
    }
}

/// The full rasterization of a shape: one block per body point, tail first.
/// Blocks of adjacent points may overlap; duplicates are kept, since setting
/// a pixel twice is harmless on the wire.
pub open spec fn raster_spec(s: SnakeView) -> Seq<PixelView> {
    raster_upto(s, s.points.len() as int)
}

/// All block coordinates stay within `i32`, so rasterizing cannot overflow.
pub open spec fn raster_in_bounds(s: SnakeView) -> bool {
    forall|i: int|
        0 <= i < s.points.len() ==> {
            &&& i32::MIN <= (#[trigger] s.points[i]).0 - half(s.size)
            &&& s.points[i].0 + half(s.size) <= i32::MAX
            &&& i32::MIN <= s.points[i].1 - half(s.size)
            &&& s.points[i].1 + half(s.size) <= i32::MAX
        }
}

impl Snake {
    /// Rasterize the shape: for every body point, a `width(size)` square
    /// block of pixels around it, all in the shape's color.
    pub fn pixels(&self) -> (result: Vec<Pixel>)
        requires
            wf(self@),
            raster_in_bounds(self@),
        ensures
            result@.map_values(|p: Pixel| p@) == raster_spec(self@),
    {
        let h: i32 = ((self.size as u32) / 2) as i32;
        let w: i32 = 2 * h;
        proof {
            assert(h as int == half(self@.size));
            assert(w as int == width(self@.size));
        }
        let mut result: Vec<Pixel> = Vec::new();
        let mut i: usize = 0;
        proof {
            assert(result@.map_values(|p: Pixel| p@) =~= raster_upto(self@, 0));
        }
        while i < self.points.len()
            invariant
                wf(self@),
                raster_in_bounds(self@),
                i <= self.points.len(),
                self@.points.len() == self.points@.len(),
                h as int == half(self@.size),
                w as int == width(self@.size),
                result@.map_values(|p: Pixel| p@) == raster_upto(self@, i as int),
            decreases self.points.len() - i,
        {
            let (p_x, p_y) = self.points[i];
            proof {
                assert(self@.points[i as int] == (p_x as int, p_y as int));
            }
            let mut dx: i32 = 0;
            while dx < w
                invariant
                    wf(self@),
                    0 <= dx <= w,
                    i < self.points@.len(),
                    self@.points[i as int] == (p_x as int, p_y as int),
                    i32::MIN <= p_x as int - half(self@.size),
                    p_x as int + half(self@.size) <= i32::MAX,
                    i32::MIN <= p_y as int - half(self@.size),
                    p_y as int + half(self@.size) <= i32::MAX,
                    h as int == half(self@.size),
                    w as int == width(self@.size),
                    result@.map_values(|p: Pixel| p@) == raster_upto(self@, i as int)
                        + block_upto((p_x as int, p_y as int), self@.size, self@.color, dx as int),
                decreases w - dx,
            {
                let x = p_x - h + dx;
                let mut dy: i32 = 0;
                while dy < w
                    invariant
                        wf(self@),
                        0 <= dy <= w,
                        0 <= dx < w,
                        i < self.points@.len(),
                        self@.points[i as int] == (p_x as int, p_y as int),
                        i32::MIN <= p_y as int - half(self@.size),
                        p_y as int + half(self@.size) <= i32::MAX,
                        x as int == p_x as int - half(self@.size) + dx,
                        h as int == half(self@.size),
                        w as int == width(self@.size),
                        result@.map_values(|p: Pixel| p@) == raster_upto(self@, i as int)
                            + block_upto(
                            (p_x as int, p_y as int),
                            self@.size,
                            self@.color,
                            dx as int,
                        ) + col_spec(x as int, p_y as int, self@.size, self@.color).take(dy as int),
                    decreases w - dy,
                {
                    let y = p_y - h + dy;
                    result.push(Pixel { x, y, color: self.color.clone() });
                    proof {
                        let cs = col_spec(x as int, p_y as int, self@.size, self@.color);
                        let pix = (PixelView { x: x as int, y: y as int, color: self@.color });
                        let done = raster_upto(self@, i as int) + block_upto(
                            (p_x as int, p_y as int),
                            self@.size,
                            self@.color,
                            dx as int,
                        );
                        assert(cs[dy as int] == pix);
                        assert(result@.map_values(|p: Pixel| p@) =~= (done + cs.take(
                            dy as int,
                        )).push(pix));
                        assert((done + cs.take(dy as int)).push(pix) =~= done + cs.take(
                            dy as int + 1,
                        ));
                    }
                    dy += 1;
                }
                proof {
                    let cs = col_spec(x as int, p_y as int, self@.size, self@.color);
                    assert(cs.take(w as int) =~= cs);
                    assert(raster_upto(self@, i as int) + block_upto(
                        (p_x as int, p_y as int),
                        self@.size,
                        self@.color,
                        dx as int,
                    ) + cs =~= raster_upto(self@, i as int) + block_upto(
                        (p_x as int, p_y as int),
                        self@.size,
                        self@.color,
                        dx as int + 1,
                    ));
                }
                dx += 1;
            }
            proof {
                assert(block_upto((p_x as int, p_y as int), self@.size, self@.color, w as int)
                    == block_spec(self@.points[i as int], self@.size, self@.color));
                assert(raster_upto(self@, i as int) + block_spec(
                    self@.points[i as int],
                    self@.size,
                    self@.color,
                ) =~= raster_upto(self@, i as int + 1));
            }
            i += 1;
        }
        proof {
            assert(raster_upto(self@, i as int) == raster_spec(self@));
        }
        result
    }
}

impl Snake {
    /// Whether rasterizing is safe: the block size is non-negative and every
    /// block corner stays within coordinate range.  Callers outside the
    /// proof can test this before [`Self::pixels`].
    pub fn can_rasterize(&self) -> (r: bool)
        ensures
            r == (self@.size >= 0 && raster_in_bounds(self@)),
    {
        if self.size < 0 {
            return false;
        }
        let h: i64 = ((self.size as u32) / 2) as i64;
        proof {
            assert(h as int == half(self@.size));
        }
        let mut i: usize = 0;
        while i < self.points.len()
            invariant
                i <= self.points.len(),
                self@.points.len() == self.points@.len(),
                h as int == half(self@.size),
                self@.size >= 0,
                forall|j: int|
                    0 <= j < i ==> {
                        &&& i32::MIN <= (#[trigger] self@.points[j]).0 - half(self@.size)
                        &&& self@.points[j].0 + half(self@.size) <= i32::MAX
                        &&& i32::MIN <= self@.points[j].1 - half(self@.size)
                        &&& self@.points[j].1 + half(self@.size) <= i32::MAX
                    },
            decreases self.points.len() - i,
        {
            let (p_x, p_y) = self.points[i];
            proof {
                assert(self@.points[i as int] == (p_x as int, p_y as int));
            }
            let px: i64 = p_x as i64;
            let py: i64 = p_y as i64;
            if px - h < -2147483648 || px + h > 2147483647 || py - h < -2147483648 || py + h
                > 2147483647 {
                return false;
            }
            i += 1;
        }
        true
    }
}

proof fn lemma_block_upto_len_and_color(p: (int, int), size: int, color: Seq<char>, dx: int)
    requires
        0 <= dx,
        0 <= size,
    ensures
        block_upto(p, size, color, dx).len() == dx * width(size),
        forall|k: int|
            0 <= k < block_upto(p, size, color, dx).len() ==> (#[trigger] block_upto(
                p,
                size,
                color,
                dx,
            )[k]).color == color,
    decreases dx,
{
    if dx > 0 {
        lemma_block_upto_len_and_color(p, size, color, dx - 1);
        assert(col_spec(p.0 - half(size) + (dx - 1), p.1, size, color).len() == width(size));
        assert(block_upto(p, size, color, dx).len() == (dx - 1) * width(size) + width(size));
        assert((dx - 1) * width(size) + width(size) == dx * width(size)) by (nonlinear_arith);
    } else {
        assert(block_upto(p, size, color, dx).len() == 0);
        assert(dx * width(size) == 0) by (nonlinear_arith)
            requires
                dx == 0,
        ;
    }
}

proof fn lemma_raster_upto_len_and_color(s: SnakeView, i: int)
    requires
        0 <= i <= s.points.len(),
        0 <= s.size,
    ensures
        raster_upto(s, i).len() == i * width(s.size) * width(s.size),
        forall|k: int|
            0 <= k < raster_upto(s, i).len() ==> (#[trigger] raster_upto(s, i)[k]).color == s.color,
    decreases i,
{
    if i > 0 {
        lemma_raster_upto_len_and_color(s, i - 1);
        lemma_block_upto_len_and_color(s.points[i - 1], s.size, s.color, width(s.size));
        assert(block_spec(s.points[i - 1], s.size, s.color).len() == width(s.size) * width(s.size));
        assert(raster_upto(s, i).len() == (i - 1) * width(s.size) * width(s.size) + width(s.size)
            * width(s.size));
        assert((i - 1) * width(s.size) * width(s.size) + width(s.size) * width(s.size) == i * width(
            s.size,
        ) * width(s.size)) by (nonlinear_arith);
    } else {
        assert(raster_upto(s, i).len() == 0);
        assert(i * width(s.size) * width(s.size) == 0) by (nonlinear_arith)
            requires
                i == 0,
        ;
    }
}

/// For every non-empty well-formed shape whose block size is even, the
/// rasterization holds exactly `points.len() * size * size` pixels, and every
/// one of them carries the shape's color.  (With an odd size the half-open
/// coordinate ranges span `2 * (size / 2)` values instead of `size`.)
pub proof fn lemma_raster_count_and_color(s: SnakeView)
    requires
        wf(s),
        s.size % 2 == 0,
    ensures
        raster_spec(s).len() == s.points.len() * s.size * s.size,
        forall|k: int|
            0 <= k < raster_spec(s).len() ==> (#[trigger] raster_spec(s)[k]).color == s.color,
{
    lemma_raster_upto_len_and_color(s, s.points.len() as int);
    assert(width(s.size) == s.size);
}

} // verus!
