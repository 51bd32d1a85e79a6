//! An RGBA pixel buffer, and the copy of a pixel rectangle between two buffers.
use vstd::prelude::*;

verus! {

/// Bytes per pixel: red, green, blue, alpha.
pub const CHANNELS: usize = 4;

/// A `width` by `height` image, row by row, four bytes (RGBA) per pixel.
#[derive(Clone, Debug, PartialEq, Eq)]
pub struct Raster {
    pub width: usize,
    pub height: usize,
    pub pixels: Vec<u8>,
}

/// Where channel `c` of pixel `(x, y)` stands in a buffer `width` pixels wide.
pub open spec fn byte_index(width: int, x: int, y: int, c: int) -> int {
    (y * width + x) * 4 + c
}

/// `(x, y)` lies in the rectangle at `(rx, ry)` of `w` by `h` pixels.
pub open spec fn in_rect(x: int, y: int, rx: int, ry: int, w: int, h: int) -> bool {
    rx <= x < rx + w && ry <= y < ry + h
}

pub proof fn lemma_byte_index_bounds(width: int, height: int, x: int, y: int, c: int)
    requires
        0 <= x < width,
        0 <= y < height,
        0 <= c < 4,
    ensures
        0 <= y * width + x < width * height,
        0 <= byte_index(width, x, y, c) < width * height * 4,
{
    assert(0 <= y * width + x < width * height) by (nonlinear_arith)
        requires 0 <= x < width, 0 <= y < height;
}

pub proof fn lemma_byte_index_injective(
    width: int,
    x1: int,
    y1: int,
    c1: int,
    x2: int,
    y2: int,
    c2: int,
)
    requires
        0 <= x1 < width,
        0 <= x2 < width,
        0 <= y1,
        0 <= y2,
        0 <= c1 < 4,
        0 <= c2 < 4,
        byte_index(width, x1, y1, c1) == byte_index(width, x2, y2, c2),
    ensures
        x1 == x2 && y1 == y2 && c1 == c2,
{
    let a = y1 * width + x1;
    let b = y2 * width + x2;
    assert(a == b && c1 == c2);
    if y1 < y2 {
        assert(y2 * width >= y1 * width + width) by (nonlinear_arith)
            requires y1 < y2, width > 0;
    } else if y2 < y1 {
        assert(y1 * width >= y2 * width + width) by (nonlinear_arith)
            requires y2 < y1, width > 0;
    }
}

impl Raster {
    /// The buffer holds exactly four bytes per pixel.
    pub open spec fn wf(&self) -> bool {
        self.pixels@.len() == self.width * self.height * 4
    }

    /// Channel `c` of pixel `(x, y)`.
    pub open spec fn byte(&self, x: int, y: int, c: int) -> u8 {
        self.pixels@[byte_index(self.width as int, x, y, c)]
    }

    /// A transparent black image of the given size.
    pub fn new(width: usize, height: usize) -> (r: Raster)
        requires
            width * height * 4 <= usize::MAX,
        ensures
            r.wf(),
            r.width == width,
            r.height == height,
            forall|i: int| 0 <= i < r.pixels@.len() ==> r.pixels@[i] == 0,
    {
        let n = width * height * CHANNELS;
        let pixels = vec![0u8; n];
        Raster { width, height, pixels }
    }

    /// Copies the `w` by `h` rectangle at `(sx, sy)` of `src` to `(dx, dy)`.
    /// Returns false, and changes nothing, where either rectangle does not fit
    /// its image.
    pub fn copy_rect(
        &mut self,
        src: &Raster,
        sx: usize,
        sy: usize,
        w: usize,
        h: usize,
        dx: usize,
        dy: usize,
    ) -> (ok: bool)
        requires
            old(self).wf(),
            src.wf(),
        ensures
            ok == (sx + w <= src.width && sy + h <= src.height && dx + w <= old(self).width
                && dy + h <= old(self).height),
            !ok ==> *final(self) == *old(self),
            final(self).wf(),
            final(self).width == old(self).width,
            final(self).height == old(self).height,
            ok ==> forall|x: int, y: int, c: int|
                0 <= x < w && 0 <= y < h && 0 <= c < 4 ==> #[trigger] final(self).byte(
                    dx + x,
                    dy + y,
                    c,
                ) == src.byte(sx + x, sy + y, c),
            forall|x: int, y: int, c: int|
                0 <= x < old(self).width && 0 <= y < old(self).height && 0 <= c < 4 && !in_rect(
                    x,
                    y,
                    dx as int,
                    dy as int,
                    w as int,
                    h as int,
                ) ==> #[trigger] final(self).byte(x, y, c) == old(self).byte(x, y, c),
    {
        if !(w <= src.width && sx <= src.width - w && h <= src.height && sy <= src.height - h
            && w <= self.width && dx <= self.width - w && h <= self.height && dy <= self.height
            - h) {
            return false;
        }
        let ghost pre = *self;
        let dw = self.width;
        let sw = src.width;
        let slen = src.pixels.len();
        let dlen = self.pixels.len();
        let mut j: usize = 0;
        while j < h
            invariant
                self.wf(),
                src.wf(),
                self.width == pre.width,
                self.height == pre.height,
                dw == self.width,
                sw == src.width,
                slen == src.pixels@.len(),
                dlen == self.pixels@.len(),
                sx + w <= src.width,
                sy + h <= src.height,
                dx + w <= self.width,
                dy + h <= self.height,
                j <= h,
                forall|x: int, y: int, c: int|
                    0 <= x < w && 0 <= y < j && 0 <= c < 4 ==> #[trigger] self.byte(
                        dx + x,
                        dy + y,
                        c,
                    ) == src.byte(sx + x, sy + y, c),
                forall|x: int, y: int, c: int|
                    0 <= x < pre.width && 0 <= y < pre.height && 0 <= c < 4 && !in_rect(
                        x,
                        y,
                        dx as int,
                        dy as int,
                        w as int,
                        j as int,
                    ) ==> #[trigger] self.byte(x, y, c) == pre.byte(x, y, c),
            decreases h - j,
        {
            let ghost row_start = *self;
            let mut i: usize = 0;
            while i < w
                invariant
                    self.wf(),
                    src.wf(),
                    self.width == pre.width,
                    self.height == pre.height,
                    dw == self.width,
                    sw == src.width,
                    slen == src.pixels@.len(),
                    dlen == self.pixels@.len(),
                    sx + w <= src.width,
                    sy + h <= src.height,
                    dx + w <= self.width,
                    dy + h <= self.height,
                    j < h,
                    i <= w,
                    forall|x: int, y: int, c: int|
                        0 <= x < w && 0 <= y < j && 0 <= c < 4 ==> #[trigger] self.byte(
                            dx + x,
                            dy + y,
                            c,
                        ) == src.byte(sx + x, sy + y, c),
                    forall|x: int, c: int|
                        0 <= x < i && 0 <= c < 4 ==> #[trigger] self.byte(dx + x, dy + j, c)
                            == src.byte(sx + x, sy + j, c),
                    forall|x: int, y: int, c: int|
                        0 <= x < pre.width && 0 <= y < pre.height && 0 <= c < 4 && !in_rect(
                            x,
                            y,
                            dx as int,
                            dy as int,
                            w as int,
                            j as int,
                        ) && !in_rect(x, y, dx as int, dy + j, i as int, 1) ==> #[trigger] self.byte(
                            x,
                            y,
                            c,
                        ) == pre.byte(x, y, c),
                decreases w - i,
            {
                let mut c: usize = 0;
                while c < CHANNELS
                    invariant
                        self.wf(),
                        src.wf(),
                        self.width == pre.width,
                        self.height == pre.height,
                        dw == self.width,
                        sw == src.width,
                        slen == src.pixels@.len(),
                        dlen == self.pixels@.len(),
                        sx + w <= src.width,
                        sy + h <= src.height,
                        dx + w <= self.width,
                        dy + h <= self.height,
                        j < h,
                        i < w,
                        c <= 4,
                        forall|x: int, y: int, k: int|
                            0 <= x < w && 0 <= y < j && 0 <= k < 4 ==> #[trigger] self.byte(
                                dx + x,
                                dy + y,
                                k,
                            ) == src.byte(sx + x, sy + y, k),
                        forall|x: int, k: int|
                            0 <= x < i && 0 <= k < 4 ==> #[trigger] self.byte(dx + x, dy + j, k)
                                == src.byte(sx + x, sy + j, k),
                        forall|k: int|
                            0 <= k < c ==> #[trigger] self.byte(dx + i, dy + j, k) == src.byte(
                                sx + i,
                                sy + j,
                                k,
                            ),
                        forall|x: int, y: int, k: int|
                            0 <= x < pre.width && 0 <= y < pre.height && 0 <= k < 4 && !in_rect(
                                x,
                                y,
                                dx as int,
                                dy as int,
                                w as int,
                                j as int,
                            ) && !in_rect(x, y, dx as int, dy + j, i as int, 1) && !(x == dx + i
                                && y == dy + j && k < c) ==> #[trigger] self.byte(x, y, k)
                                == pre.byte(x, y, k),
                    decreases 4 - c,
                {
                    proof {
                        lemma_byte_index_bounds(sw as int, src.height as int, sx + i, sy + j, c as int);
                        lemma_byte_index_bounds(dw as int, self.height as int, dx + i, dy + j, c as int);
                    }
                    assert(0 <= (sy + j) * sw <= (sy + j) * sw + (sx + i));
                    assert(0 <= (dy + j) * dw <= (dy + j) * dw + (dx + i));
                    assert(((sy + j) * sw + (sx + i)) * 4 + c < src.pixels@.len());
                    let s_at = ((sy + j) * sw + (sx + i)) * CHANNELS + c;
                    let d_at = ((dy + j) * dw + (dx + i)) * CHANNELS + c;
                    let v = src.pixels[s_at];
                    let ghost before = *self;
                    self.pixels.set(d_at, v);
                    proof {
                        assert forall|x: int, y: int, k: int|
                            0 <= x < pre.width && 0 <= y < pre.height && 0 <= k < 4 && !(x == dx + i
                                && y == dy + j && k == c) implies #[trigger] self.byte(x, y, k)
                            == before.byte(x, y, k) by {
                            lemma_byte_index_bounds(dw as int, self.height as int, x, y, k);
                            if byte_index(dw as int, x, y, k) == d_at {
                                lemma_byte_index_injective(dw as int, x, y, k, dx + i, dy + j, c as int);
                            }
                        }
                    }
                    c = c + 1;
                }
                i = i + 1;
            }
            proof {
                assert forall|x: int, y: int, k: int|
                    0 <= x < w && 0 <= y < j + 1 && 0 <= k < 4 implies #[trigger] self.byte(
                        dx + x,
                        dy + y,
                        k,
                    ) == src.byte(sx + x, sy + y, k) by {
                    if y == j {
                        assert(self.byte(dx + x, dy + j, k) == src.byte(sx + x, sy + j, k));
                    }
                }
            }
            j = j + 1;
        }
        true
    }
}

} // verus!
