use vstd::prelude::*;
use crate::color::Color;

verus! {

/// `input` limited to `[min, max]`, tested against `min` first.
pub open spec fn clamp_spec(input: int, min: int, max: int) -> int {
    if input < min {
        min
    } else if input > max {
        max
    } else {
        input
    }
}

/// Limits `input` to `[min, max]`; where `min > max` the lower bound wins.
pub fn clamp(input: i32, min: i32, max: i32) -> (r: i32)
    ensures
        r as int == clamp_spec(input as int, min as int, max as int),
{
    if input < min {
        min
    } else if input > max {
        max
    } else {
        input
    }
}

/// The storage index of the logical cell `(x, y)`: rows are stored top
/// first, so logical row `y` is stored as row `height - y - 1`.
pub open spec fn pixel_index(width: int, height: int, x: int, y: int) -> int {
    width * (height - y - 1) + x
}

/// Whether `(x, y)` lies on a `width` by `height` grid.
pub open spec fn in_bounds(width: int, height: int, x: int, y: int) -> bool {
    0 <= x < width && 0 <= y < height
}

/// A logical pixel surface of fixed size, with the instants (in
/// milliseconds) of the presentations made in the last second.
pub struct Canvas {
    pub width: usize,
    pub height: usize,
    pub pixels: Vec<u32>,
    pub frame_times: Vec<u64>,
}

/// The span, in milliseconds, over which presentations are counted.
pub const FPS_WINDOW_MS: u64 = 1000;

/// The storage index at which a rectangle fill starts: the anchor
/// `(x0, y0)` clamped to the surface.
pub open spec fn rect_base(width: int, height: int, x0: i32, y0: i32) -> int {
    let cx = clamp_spec(x0 as int, 0, width);
    let cy = clamp_spec(y0 as int, 0, height);
    width * (height - cy - 1) + cx
}

/// The number of rows that a rectangle fill writes: `h`, but no more than
/// the clamped anchor row.
pub open spec fn rect_rows(height: int, y0: i32, h: usize) -> int {
    let cy = clamp_spec(y0 as int, 0, height);
    if h > cy {
        cy
    } else {
        h as int
    }
}

/// Whether storage index `i` is written by a fill of `rows` runs of `w`
/// pixels, the run of row `j` starting at `base + j * width`.
pub open spec fn in_runs(i: int, base: int, width: int, w: int, rows: int) -> bool {
    exists|j: int| 0 <= j < rows && #[trigger] (j * width) + base <= i < j * width + base + w
}

/// Whether a rectangle fill stays inside a `width` by `height` surface.
pub open spec fn rect_fits(width: int, height: int, x0: i32, y0: i32, w: usize, h: usize) -> bool {
    let rows = rect_rows(height, y0, h);
    &&& clamp_spec(y0 as int, 0, height) < height
    &&& (rows == 0 || (rows - 1) * width + rect_base(width, height, x0, y0) + w <= width * height)
}

/// The pixels after a rectangle fill of `pixels`.
pub open spec fn filled(
    pixels: Seq<u32>,
    width: int,
    height: int,
    x0: i32,
    y0: i32,
    w: usize,
    h: usize,
    c: u32,
) -> Seq<u32> {
    let base = rect_base(width, height, x0, y0);
    let rows = rect_rows(height, y0, h);
    Seq::new(
        pixels.len(),
        |i: int|
            if in_runs(i, base, width, w as int, rows) {
                c
            } else {
                pixels[i]
            },
    )
}

/// The presentation times that remain of `times` once the leading ones
/// before `cutoff` are dropped: `kept` is what follows them.
pub open spec fn drops_stale_prefix(times: Seq<u64>, cutoff: int, kept: Seq<u64>) -> bool {
    exists|k: int|
        0 <= k <= times.len() && kept == times.subrange(k, times.len() as int) && (forall|i: int|
            0 <= i < k ==> #[trigger] times[i] < cutoff) && (k < times.len() ==> times[k] >= cutoff)
}

/// The earliest presentation time still counted when a frame is presented
/// at `now`.
pub open spec fn fps_cutoff(now: u64) -> int {
    if now >= FPS_WINDOW_MS {
        now - FPS_WINDOW_MS
    } else {
        0
    }
}

/// Byte `k` (0 to 3, least significant first) of `p`.
pub open spec fn le_byte(p: u32, k: int) -> u8 {
    if k == 0 {
        (p % 0x100) as u8
    } else if k == 1 {
        ((p / 0x100) % 0x100) as u8
    } else if k == 2 {
        ((p / 0x1_0000) % 0x100) as u8
    } else {
        (p / 0x100_0000) as u8
    }
}

/// Asking for more rows than the anchor row `y0` allows fills the same
/// pixels, under the same condition, as asking for `y0` rows.
pub proof fn lemma_fill_height_clamped(
    pixels: Seq<u32>,
    width: int,
    height: int,
    x0: i32,
    y0: i32,
    w: usize,
    h: usize,
    c: u32,
)
    requires
        0 <= height,
        0 <= y0,
        h > y0,
    ensures
        rect_fits(width, height, x0, y0, w, h) == rect_fits(width, height, x0, y0, w, y0 as usize),
        filled(pixels, width, height, x0, y0, w, h, c) == filled(
            pixels,
            width,
            height,
            x0,
            y0,
            w,
            y0 as usize,
            c,
        ),
{
    assert(rect_rows(height, y0, h) == rect_rows(height, y0, y0 as usize));
}

/// Distinct cells of the surface have distinct storage indices.
pub(crate) proof fn lemma_pixel_index_injective(width: int, height: int, x1: int, y1: int, x2: int, y2: int)
    requires
        in_bounds(width, height, x1, y1),
        in_bounds(width, height, x2, y2),
        pixel_index(width, height, x1, y1) == pixel_index(width, height, x2, y2),
    ensures
        x1 == x2 && y1 == y2,
{
    let i = pixel_index(width, height, x1, y1);
    assert(i == (height - y1 - 1) * width + x1) by (nonlinear_arith)
        requires
            i == width * (height - y1 - 1) + x1,
    ;
    assert(i == (height - y2 - 1) * width + x2) by (nonlinear_arith)
        requires
            i == width * (height - y2 - 1) + x2,
    ;
    vstd::arithmetic::div_mod::lemma_fundamental_div_mod_converse(i, width, height - y1 - 1, x1);
    vstd::arithmetic::div_mod::lemma_fundamental_div_mod_converse(i, width, height - y2 - 1, x2);
}

/// Where every cell of the surface shows `before(x, y)` in `old`, writing
/// `c` at `(qx, qy)` as `set_pixel` does leaves every cell showing
/// `after(x, y)`, which is `c` at `(qx, qy)` and `before` elsewhere.
pub(crate) proof fn lemma_paint_cell(
    old: Seq<u32>,
    new: Seq<u32>,
    width: int,
    height: int,
    qx: i32,
    qy: i32,
    c: u32,
    before: spec_fn(i32, i32) -> u32,
    after: spec_fn(i32, i32) -> u32,
)
    requires
        old.len() == width * height,
        forall|x: i32, y: i32|
            in_bounds(width, height, x as int, y as int) ==> old[pixel_index(width, height, x as int, y as int)]
                == before(x, y),
        new == if in_bounds(width, height, qx as int, qy as int) {
            old.update(pixel_index(width, height, qx as int, qy as int), c)
        } else {
            old
        },
        forall|x: i32, y: i32|
            #[trigger] after(x, y) == if x == qx && y == qy {
                c
            } else {
                before(x, y)
            },
    ensures
        forall|x: i32, y: i32|
            in_bounds(width, height, x as int, y as int) ==> new[pixel_index(width, height, x as int, y as int)]
                == after(x, y),
{
    assert forall|x: i32, y: i32|
        in_bounds(width, height, x as int, y as int) implies new[pixel_index(
        width,
        height,
        x as int,
        y as int,
    )] == after(x, y) by {
        lemma_index_in_grid(width, height, x as int, y as int);
        if in_bounds(width, height, qx as int, qy as int) {
            lemma_index_in_grid(width, height, qx as int, qy as int);
            if pixel_index(width, height, x as int, y as int) == pixel_index(width, height, qx as int, qy as int) {
                lemma_pixel_index_injective(width, height, x as int, y as int, qx as int, qy as int);
            }
        }
    }
}

proof fn lemma_runs_extend(base: int, width: int, w: int, j: int)
    requires
        j >= 0,
    ensures
        forall|i: int|
            in_runs(i, base, width, w, j + 1) == (in_runs(i, base, width, w, j) || (j * width + base
                <= i < j * width + base + w)),
{
    assert forall|i: int|
        in_runs(i, base, width, w, j + 1) == (in_runs(i, base, width, w, j) || (j * width + base
            <= i < j * width + base + w)) by {
        if in_runs(i, base, width, w, j + 1) {
            let jj = choose|jj: int|
                0 <= jj < j + 1 && #[trigger] (jj * width) + base <= i < jj * width + base + w;
            if jj < j {
                assert(in_runs(i, base, width, w, j));
            }
        }
        if in_runs(i, base, width, w, j) {
            let jj = choose|jj: int|
                0 <= jj < j && #[trigger] (jj * width) + base <= i < jj * width + base + w;
            assert(0 <= jj < j + 1);
        }
    }
}

pub(crate) proof fn lemma_index_in_grid(width: int, height: int, x: int, y: int)
    requires
        in_bounds(width, height, x, y),
    ensures
        0 <= width * (height - y - 1) <= pixel_index(width, height, x, y) < width * height,
{
    assert(0 <= width * (height - y - 1)) by (nonlinear_arith)
        requires
            0 <= width,
            0 <= height - y - 1,
    ;
    assert(width * (height - y - 1) + width == width * (height - y)) by (nonlinear_arith);
    assert(width * (height - y) <= width * height) by (nonlinear_arith)
        requires
            0 <= width,
            0 <= y,
    ;
}

impl Canvas {
    /// Whether the pixel array matches the dimensions, which fit in `i32`.
    pub open spec fn wf(&self) -> bool {
        &&& self.width <= i32::MAX
        &&& self.height <= i32::MAX
        &&& self.pixels@.len() == self.width * self.height
    }

    /// A surface of `width` by `height` pixels, all zero, with no
    /// presentation recorded.
    pub fn new(width: u32, height: u32) -> (c: Canvas)
        requires
            width <= i32::MAX,
            height <= i32::MAX,
            width * height <= usize::MAX,
        ensures
            c.wf(),
            c.width == width,
            c.height == height,
            c.pixels@ == Seq::new((width * height) as nat, |i: int| 0u32),
            c.frame_times@.len() == 0,
    {
        let w: usize = width as usize;
        let h: usize = height as usize;
        let n: usize = w * h;
        let mut pixels: Vec<u32> = Vec::new();
        let mut i: usize = 0;
        while i < n
            invariant
                i <= n,
                pixels@ == Seq::new(i as nat, |k: int| 0u32),
            decreases n - i,
        {
            pixels.push(0u32);
            i = i + 1;
            assert(pixels@ =~= Seq::new(i as nat, |k: int| 0u32));
        }
        Canvas { width: w, height: h, pixels, frame_times: Vec::new() }
    }

    /// Sets every pixel to `color`.
    pub fn clear(&mut self, color: Color)
        requires
            old(self).wf(),
        ensures
            final(self).wf(),
            final(self).width == old(self).width,
            final(self).height == old(self).height,
            final(self).frame_times == old(self).frame_times,
            final(self).pixels@ == Seq::new(old(self).pixels@.len(), |i: int| color.0),
    {
        let v: u32 = color.as_rgba_u32();
        let n: usize = self.pixels.len();
        let mut i: usize = 0;
        while i < n
            invariant
                i <= n,
                self.wf(),
                self.width == old(self).width,
                self.height == old(self).height,
                self.frame_times == old(self).frame_times,
                self.pixels@.len() == n,
                forall|k: int| 0 <= k < i ==> self.pixels@[k] == v,
            decreases n - i,
        {
            self.pixels.set(i, v);
            i = i + 1;
        }
        assert(self.pixels@ =~= Seq::new(old(self).pixels@.len(), |i: int| color.0));
    }

    /// Writes `color` at logical cell `(x, y)`; a cell off the surface is
    /// ignored.
    pub fn set_pixel(&mut self, x: i32, y: i32, color: Color)
        requires
            old(self).wf(),
        ensures
            final(self).wf(),
            final(self).width == old(self).width,
            final(self).height == old(self).height,
            final(self).frame_times == old(self).frame_times,
            final(self).pixels@ == if in_bounds(
                old(self).width as int,
                old(self).height as int,
                x as int,
                y as int,
            ) {
                old(self).pixels@.update(
                    pixel_index(old(self).width as int, old(self).height as int, x as int, y as int),
                    color.0,
                )
            } else {
                old(self).pixels@
            },
    {
        if x < 0 || y < 0 {
            return;
        }
        let xu: usize = x as usize;
        let yu: usize = y as usize;
        if xu >= self.width || yu >= self.height {
            return;
        }
        let n: usize = self.pixels.len();
        proof {
            lemma_index_in_grid(self.width as int, self.height as int, x as int, y as int);
        }
        let idx: usize = self.width * (self.height - yu - 1) + xu;
        self.pixels.set(idx, color.as_rgba_u32());
    }

    /// Fills a block with `color`: `h` runs of `w` consecutive stored pixels,
    /// the first at the anchor `(x0, y0)` and each next one a row lower. The
    /// anchor is first clamped to the surface and `h` is cut to the clamped
    /// `y0`. A run wider than the space left in its row goes on into the
    /// next stored row. The clamped anchor row must lie on the surface and
    /// the block inside the pixel array.
    pub fn fill_rectangle(&mut self, x0: i32, y0: i32, w: usize, h: usize, color: Color)
        requires
            old(self).wf(),
            rect_fits(old(self).width as int, old(self).height as int, x0, y0, w, h),
        ensures
            final(self).wf(),
            final(self).width == old(self).width,
            final(self).height == old(self).height,
            final(self).frame_times == old(self).frame_times,
            final(self).pixels@ == filled(
                old(self).pixels@,
                old(self).width as int,
                old(self).height as int,
                x0,
                y0,
                w,
                h,
                color.0,
            ),
    {
        let ghost width = self.width as int;
        let ghost height = self.height as int;
        let ghost old_pixels = self.pixels@;
        let n: usize = self.pixels.len();
        let cx: usize = clamp(x0, 0, self.width as i32) as usize;
        let cy: usize = clamp(y0, 0, self.height as i32) as usize;
        let rows: usize = if h > cy {
            cy
        } else {
            h
        };
        proof {
            assert(0 <= width * (height - cy - 1)) by (nonlinear_arith)
                requires
                    0 <= width,
                    0 <= height - cy - 1,
            ;
            assert(width * (height - cy - 1) + width == width * (height - cy)) by (nonlinear_arith);
            assert(width * (height - cy) <= width * height) by (nonlinear_arith)
                requires
                    0 <= width,
                    0 <= cy,
            ;
        }
        let base: usize = self.width * (self.height - cy - 1) + cx;
        let ghost bi = base as int;
        let v: u32 = color.as_rgba_u32();
        let mut offset: usize = base;
        let mut j: usize = 0;
        while j < rows
            invariant
                self.wf(),
                self.width == width,
                self.height == height,
                self.frame_times == old(self).frame_times,
                self.pixels@.len() == n,
                n == width * height,
                bi == rect_base(width, height, x0, y0),
                rows == rect_rows(height, y0, h),
                rows == 0 || (rows - 1) * width + bi + w <= n,
                j <= rows,
                j < rows ==> offset == j * width + bi,
                forall|i: int|
                    0 <= i < n ==> self.pixels@[i] == if in_runs(i, bi, width, w as int, j as int) {
                        v
                    } else {
                        old_pixels[i]
                    },
            decreases rows - j,
        {
            assert(j * width <= (rows - 1) * width) by (nonlinear_arith)
                requires
                    j <= rows - 1,
                    0 <= width,
            ;
            let mut k: usize = 0;
            while k < w
                invariant
                    self.wf(),
                    self.width == width,
                    self.height == height,
                    self.frame_times == old(self).frame_times,
                    self.pixels@.len() == n,
                    offset + w <= n,
                    k <= w,
                    forall|i: int|
                        0 <= i < n ==> self.pixels@[i] == if in_runs(
                            i,
                            bi,
                            width,
                            w as int,
                            j as int,
                        ) || (offset <= i < offset + k) {
                            v
                        } else {
                            old_pixels[i]
                        },
                decreases w - k,
            {
                self.pixels.set(offset + k, v);
                k = k + 1;
            }
            proof {
                lemma_runs_extend(bi, width, w as int, j as int);
            }
            j = j + 1;
            if j < rows {
                assert(j * width <= (rows - 1) * width) by (nonlinear_arith)
                    requires
                        j <= rows - 1,
                        0 <= width,
                ;
                assert(j * width == (j - 1) * width + width) by (nonlinear_arith);
                offset = offset + self.width;
            }
        }
        assert(self.pixels@ =~= filled(old_pixels, width, height, x0, y0, w, h, v));
    }

    /// Records a presentation at `now` (milliseconds) and drops the leading
    /// records older than a second before it.
    pub fn update_fps(&mut self, now: u64)
        requires
            old(self).wf(),
        ensures
            final(self).wf(),
            final(self).width == old(self).width,
            final(self).height == old(self).height,
            final(self).pixels == old(self).pixels,
            drops_stale_prefix(old(self).frame_times@.push(now), fps_cutoff(now), final(self).frame_times@),
    {
        self.frame_times.push(now);
        let second_ago: u64 = if now >= FPS_WINDOW_MS {
            now - FPS_WINDOW_MS
        } else {
            0
        };
        let ghost all = self.frame_times@;
        let ghost mut k: int = 0;
        while self.frame_times[0] < second_ago
            invariant
                self.wf(),
                self.width == old(self).width,
                self.height == old(self).height,
                self.pixels == old(self).pixels,
                all == old(self).frame_times@.push(now),
                second_ago == fps_cutoff(now),
                0 <= k < all.len(),
                self.frame_times@ == all.subrange(k, all.len() as int),
                forall|i: int| 0 <= i < k ==> #[trigger] all[i] < second_ago,
            decreases all.len() - k,
        {
            self.frame_times.remove(0);
            proof {
                k = k + 1;
            }
            assert(self.frame_times@ =~= all.subrange(k, all.len() as int));
        }
        assert(drops_stale_prefix(all, fps_cutoff(now), self.frame_times@));
    }

    /// The number of presentations recorded in the last second.
    pub fn fps(&self) -> (r: usize)
        ensures
            r == self.frame_times@.len(),
    {
        self.frame_times.len()
    }

    /// The pixels as RGBA bytes, four per pixel, least significant first.
    pub fn frame_rgba(&self) -> (bytes: Vec<u8>)
        requires
            self.wf(),
        ensures
            bytes@.len() == 4 * self.pixels@.len(),
            forall|i: int|
                0 <= i < bytes@.len() ==> #[trigger] bytes@[i] == le_byte(self.pixels@[i / 4], i % 4),
    {
        let n: usize = self.pixels.len();
        let mut bytes: Vec<u8> = Vec::new();
        let mut i: usize = 0;
        while i < n
            invariant
                i <= n,
                n == self.pixels@.len(),
                n <= usize::MAX,
                bytes@.len() == 4 * i,
                forall|t: int|
                    0 <= t < bytes@.len() ==> #[trigger] bytes@[t] == le_byte(self.pixels@[t / 4], t % 4),
            decreases n - i,
        {
            let p: u32 = self.pixels[i];
            bytes.push((p % 0x100) as u8);
            bytes.push(((p / 0x100) % 0x100) as u8);
            bytes.push(((p / 0x1_0000) % 0x100) as u8);
            bytes.push((p / 0x100_0000) as u8);
            i = i + 1;
        }
        bytes
    }
}

} // verus!
