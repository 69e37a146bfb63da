use vstd::prelude::*;

verus! {

/// An RGB picture, row by row: the pixel at column `x` and row `y` is at
/// position `y * width + x`.
pub struct PixelGrid {
    pub width: u32,
    pub height: u32,
    pub pixels: Vec<[u8; 3]>,
}

impl PixelGrid {
    /// The grid holds one pixel per column and row.
    pub open spec fn wf(&self) -> bool {
        self.pixels@.len() == self.width * self.height
    }

    /// Position of the pixel at column `x` and row `y`.
    pub open spec fn at(&self, x: int, y: int) -> int {
        grid_at(self.width as int, x, y)
    }
}

/// Position of column `x`, row `y` in a grid `w` pixels wide.
pub open spec fn grid_at(w: int, x: int, y: int) -> int {
    y * w + x
}

proof fn lemma_grid_at_injective(w: int)
    requires
        w >= 0,
    ensures
        forall|x1: int, y1: int, x2: int, y2: int|
            0 <= x1 < w && 0 <= x2 < w && 0 <= y1 && 0 <= y2 && #[trigger] grid_at(w, x1, y1) == #[trigger] grid_at(
                w,
                x2,
                y2,
            ) ==> x1 == x2 && y1 == y2,
{
    assert forall|x1: int, y1: int, x2: int, y2: int|
        0 <= x1 < w && 0 <= x2 < w && 0 <= y1 && 0 <= y2 && #[trigger] grid_at(w, x1, y1) == #[trigger] grid_at(w, x2, y2)
        implies x1 == x2 && y1 == y2 by {
        lemma_at_injective(w, x1, y1, x2, y2);
    }
}

proof fn lemma_grid_at_bounds(w: int, h: int)
    ensures
        forall|x: int, y: int| 0 <= x < w && 0 <= y < h ==> 0 <= #[trigger] grid_at(w, x, y) < w * h,
{
    assert forall|x: int, y: int| 0 <= x < w && 0 <= y < h implies 0 <= #[trigger] grid_at(w, x, y) < w * h by {
        lemma_at_bounds(w, h, x, y);
    }
}

/// The pixel is black.
pub open spec fn is_black(p: [u8; 3]) -> bool {
    p[0] == 0 && p[1] == 0 && p[2] == 0
}

/// The colour a point's surroundings get: dark grey.
pub open spec fn surround_color() -> [u8; 3] {
    [50u8, 50u8, 50u8]
}

/// The pixel at column `px`, row `py` after marking the point `(x, y)`: the
/// point takes the colour, black pixels around it turn dark grey, the rest
/// stay.
pub open spec fn marked_pixel(old_pixel: [u8; 3], px: int, py: int, x: int, y: int, color: [u8; 3]) -> [u8; 3] {
    if px == x && py == y {
        color
    } else if x - 1 <= px <= x + 1 && y - 1 <= py <= y + 1 && is_black(old_pixel) {
        surround_color()
    } else {
        old_pixel
    }
}

proof fn lemma_at_bounds(w: int, h: int, x: int, y: int)
    requires
        0 <= x < w,
        0 <= y < h,
    ensures
        0 <= y * w + x < w * h,
        0 <= y * w <= y * w + x,
{
    assert(y * w + x < w * h) by (nonlinear_arith) requires 0 <= x < w, 0 <= y < h;
    assert(y * w >= 0) by (nonlinear_arith) requires 0 <= y, 0 <= w;
}

proof fn lemma_at_injective(w: int, x1: int, y1: int, x2: int, y2: int)
    requires
        0 <= x1 < w,
        0 <= x2 < w,
        0 <= y1,
        0 <= y2,
        y1 * w + x1 == y2 * w + x2,
    ensures
        x1 == x2,
        y1 == y2,
{
    if y1 < y2 {
        assert(y1 * w + w <= y2 * w) by (nonlinear_arith) requires y1 < y2, w >= 0;
    } else if y2 < y1 {
        assert(y2 * w + w <= y1 * w) by (nonlinear_arith) requires y2 < y1, w >= 0;
    }
}

/// Marks the point `(x, y)`: black pixels in the 3 by 3 square around it
/// turn dark grey, and the point itself takes the colour.
pub fn surround_pixel(img: &mut PixelGrid, x: u32, y: u32, color: [u8; 3])
    requires
        old(img).wf(),
        1 <= x,
        1 <= y,
        x + 1 < old(img).width,
        y + 1 < old(img).height,
    ensures
        final(img).width == old(img).width,
        final(img).height == old(img).height,
        final(img).wf(),
        forall|px: int, py: int|
            0 <= px < old(img).width && 0 <= py < old(img).height ==> #[trigger] final(img).pixels@[old(img).at(px, py)]
                == marked_pixel(old(img).pixels@[old(img).at(px, py)], px, py, x as int, y as int, color),
{
    let ghost w = img.width as int;
    let ghost h = img.height as int;
    let ghost before = img.pixels@;
    proof {
        lemma_grid_at_injective(w);
        lemma_grid_at_bounds(w, h);
    }
    let width = img.width as usize;
    let npix = img.pixels.len();
    let mut x0: u32 = x - 1;
    while x0 <= x + 1
        invariant
            img.width == w,
            img.height == h,
            img.pixels@.len() == w * h,
            npix == w * h,
            width == w,
            1 <= x,
            1 <= y,
            x + 1 < w,
            y + 1 < h,
            x - 1 <= x0 <= x + 2,
            forall|px: int, py: int|
                0 <= px < w && 0 <= py < h ==> #[trigger] img.pixels@[grid_at(w, px, py)] == if x - 1 <= px < x0 && y - 1
                    <= py <= y + 1 && is_black(before[grid_at(w, px, py)]) {
                    surround_color()
                } else {
                    before[grid_at(w, px, py)]
                },
        decreases x + 2 - x0,
    {
        let mut y0: u32 = y - 1;
        while y0 <= y + 1
            invariant
                img.width == w,
                img.height == h,
                img.pixels@.len() == w * h,
                npix == w * h,
                width == w,
                1 <= x,
                1 <= y,
                x + 1 < w,
                y + 1 < h,
                x - 1 <= x0 <= x + 1,
                y - 1 <= y0 <= y + 2,
                forall|px: int, py: int|
                    0 <= px < w && 0 <= py < h ==> #[trigger] img.pixels@[grid_at(w, px, py)] == if (x - 1 <= px < x0 && y - 1
                        <= py <= y + 1 || px == x0 && y - 1 <= py < y0) && is_black(before[grid_at(w, px, py)]) {
                        surround_color()
                    } else {
                        before[grid_at(w, px, py)]
                    },
            decreases y + 2 - y0,
        {
            proof {
                lemma_at_bounds(w, h, x0 as int, y0 as int);
                lemma_grid_at_injective(w);
                lemma_grid_at_bounds(w, h);
                assert(grid_at(w, x0 as int, y0 as int) == y0 * w + x0);
            }
            let idx = y0 as usize * width + x0 as usize;
            let pixel = img.pixels[idx];
            if pixel[0] == 0 && pixel[1] == 0 && pixel[2] == 0 {
                img.pixels.set(idx, [50u8, 50u8, 50u8]);
            }
            y0 = y0 + 1;
        }
        x0 = x0 + 1;
    }
    proof {
        lemma_at_bounds(w, h, x as int, y as int);
        lemma_grid_at_injective(w);
        lemma_grid_at_bounds(w, h);
        assert(grid_at(w, x as int, y as int) == y * w + x);
    }
    let center = y as usize * width + x as usize;
    img.pixels.set(center, color);
}


/// Where a coordinate is drawn along one axis: one pixel in, at its
/// distance from the axis.
pub open spec fn drawn_at(c: i32) -> int {
    1 + if c < 0 { -c } else { c as int }
}

/// Marks a node's coordinate (see [`surround_pixel`]), drawn one pixel in
/// from the corner at the coordinate's distance from each axis.
pub fn mark_coord(img: &mut PixelGrid, coord: [i32; 2], color: [u8; 3])
    requires
        old(img).wf(),
        coord[0] > i32::MIN,
        coord[1] > i32::MIN,
        drawn_at(coord[0]) + 1 < old(img).width,
        drawn_at(coord[1]) + 1 < old(img).height,
    ensures
        final(img).width == old(img).width,
        final(img).height == old(img).height,
        final(img).wf(),
        forall|px: int, py: int|
            0 <= px < old(img).width && 0 <= py < old(img).height ==> #[trigger] final(img).pixels@[old(img).at(px, py)]
                == marked_pixel(old(img).pixels@[old(img).at(px, py)], px, py, drawn_at(coord[0]), drawn_at(coord[1]),
                color),
{
    let a0: u32 = if coord[0] < 0 { (-coord[0]) as u32 } else { coord[0] as u32 };
    let a1: u32 = if coord[1] < 0 { (-coord[1]) as u32 } else { coord[1] as u32 };
    surround_pixel(img, 1 + a0, 1 + a1, color);
}

} // verus!

