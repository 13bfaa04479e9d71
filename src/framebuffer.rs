use vstd::arithmetic::div_mod::lemma_fundamental_div_mod_converse;
use vstd::prelude::*;

verus! {

/// The brightest of the three channels of a pixel.
pub open spec fn max3(rgb: [u8; 3]) -> u8 {
    let m = if rgb@[1] > rgb@[2] { rgb@[1] } else { rgb@[2] };
    if rgb@[0] > m { rgb@[0] } else { m }
}

/// The gray level of a pixel: its brightest channel.
pub fn gray_color(rgb: &[u8; 3]) -> (g: u8)
    ensures
        g == max3(*rgb),
{
    let r = rgb[0];
    let gr = rgb[1];
    let b = rgb[2];
    let m = if gr > b {
        gr
    } else {
        b
    };
    if r > m {
        r
    } else {
        m
    }
}

/// An 8-bit RGB image held row after row: pixel `(x, y)` is entry `y * width + x`.
pub struct Framebuffer {
    width: usize,
    height: usize,
    pixels: Vec<[u8; 3]>,
}

impl Framebuffer {
    pub closed spec fn spec_width(&self) -> nat {
        self.width as nat
    }

    pub closed spec fn spec_height(&self) -> nat {
        self.height as nat
    }

    /// All pixels, row after row.
    pub closed spec fn pixel_seq(&self) -> Seq<[u8; 3]> {
        self.pixels@
    }

    pub open spec fn wf(&self) -> bool {
        &&& self.pixel_seq().len() == self.spec_width() * self.spec_height()
        &&& self.spec_width() * self.spec_height() <= usize::MAX
    }

    pub open spec fn pixel(&self, x: int, y: int) -> [u8; 3] {
        self.pixel_seq()[y * self.spec_width() + x]
    }

    pub open spec fn gray_at(&self, x: int, y: int) -> int {
        max3(self.pixel(x, y)) as int
    }

    /// The Sobel response across columns: the column right of `(x, y)` against
    /// the column left of it, each weighted 1, 2, 1 from top to bottom.
    pub open spec fn sobel_x(&self, x: int, y: int) -> int {
        (self.gray_at(x + 1, y - 1) + 2 * self.gray_at(x + 1, y) + self.gray_at(x + 1, y + 1)) - (
        self.gray_at(x - 1, y - 1) + 2 * self.gray_at(x - 1, y) + self.gray_at(x - 1, y + 1))
    }

    /// The Sobel response across rows: the row below `(x, y)` against the row
    /// above it, each weighted 1, 2, 1 from left to right.
    pub open spec fn sobel_y(&self, x: int, y: int) -> int {
        (self.gray_at(x - 1, y + 1) + 2 * self.gray_at(x, y + 1) + self.gray_at(x + 1, y + 1)) - (
        self.gray_at(x - 1, y - 1) + 2 * self.gray_at(x, y - 1) + self.gray_at(x + 1, y - 1))
    }

    /// The gradient at `(x, y)` is steeper than `level`.
    pub open spec fn is_edge(&self, x: int, y: int, level: nat) -> bool {
        self.sobel_x(x, y) * self.sobel_x(x, y) + self.sobel_y(x, y) * self.sobel_y(x, y) > level
            * level
    }

    pub open spec fn on_border(&self, x: int, y: int) -> bool {
        x == 0 || y == 0 || x + 1 >= self.spec_width() || y + 1 >= self.spec_height()
    }

    /// What edge detection makes of pixel `(x, y)`: black on the border and on
    /// edges, the pixel itself elsewhere.
    pub open spec fn edge_pixel(&self, x: int, y: int, level: nat) -> [u8; 3] {
        if self.on_border(x, y) || self.is_edge(x, y, level) {
            [0u8, 0u8, 0u8]
        } else {
            self.pixel(x, y)
        }
    }

    /// A black image of the given size.
    pub fn new(width: usize, height: usize) -> (r: Framebuffer)
        requires
            width * height <= usize::MAX,
        ensures
            r.wf(),
            r.spec_width() == width,
            r.spec_height() == height,
            forall|k: int| 0 <= k < width * height ==> #[trigger] r.pixel_seq()[k] == [0u8, 0u8, 0u8],
    {
        let pixels = vec![[0u8, 0u8, 0u8]; width * height];
        Framebuffer { width, height, pixels }
    }

    pub fn width(&self) -> (r: usize)
        ensures
            r == self.spec_width(),
    {
        self.width
    }

    pub fn height(&self) -> (r: usize)
        ensures
            r == self.spec_height(),
    {
        self.height
    }

    /// The pixel at column `x` of row `y`.
    pub fn get(&self, x: usize, y: usize) -> (r: [u8; 3])
        requires
            self.wf(),
            x < self.spec_width(),
            y < self.spec_height(),
        ensures
            r == self.pixel(x as int, y as int),
    {
        proof {
            lemma_index_in_image(x as int, y as int, self.width as int, self.height as int);
        }
        self.pixels[y * self.width + x]
    }

    /// Writes the pixel at column `x` of row `y`; all others stay.
    pub fn set(&mut self, x: usize, y: usize, rgb: [u8; 3])
        requires
            old(self).wf(),
            x < old(self).spec_width(),
            y < old(self).spec_height(),
        ensures
            final(self).wf(),
            final(self).spec_width() == old(self).spec_width(),
            final(self).spec_height() == old(self).spec_height(),
            final(self).pixel_seq() == old(self).pixel_seq().update(
                y * old(self).spec_width() + x,
                rgb,
            ),
    {
        proof {
            lemma_index_in_image(x as int, y as int, self.width as int, self.height as int);
        }
        let k = y * self.width + x;
        self.pixels.set(k, rgb);
    }

    /// Every coordinate of `batch` lies inside the image.
    pub open spec fn batch_in_range(&self, batch: Seq<((usize, usize), [u8; 3])>) -> bool {
        forall|q: int|
            0 <= q < batch.len() ==> (#[trigger] batch[q]).0.0 < self.spec_width() && batch[q].0.1
                < self.spec_height()
    }

    /// Writes a worker's results: each pixel `(x, y)` of `batch` gets its color,
    /// in order, so a later entry for the same pixel wins; all other pixels stay.
    pub fn write_batch(&mut self, batch: &Vec<((usize, usize), [u8; 3])>)
        requires
            old(self).wf(),
            old(self).batch_in_range(batch@),
        ensures
            final(self).wf(),
            final(self).spec_width() == old(self).spec_width(),
            final(self).spec_height() == old(self).spec_height(),
            final(self).pixel_seq() == written(old(self).pixel_seq(), old(self).spec_width(), batch@),
    {
        let ghost start = self.pixel_seq();
        let ghost w = self.spec_width();
        let ghost h = self.spec_height();
        let mut q: usize = 0;
        while q < batch.len()
            invariant
                self.wf(),
                self.spec_width() == w,
                self.spec_height() == h,
                self.batch_in_range(batch@),
                q <= batch.len(),
                self.pixel_seq() == written(start, w, batch@.take(q as int)),
            decreases batch.len() - q,
        {
            let ((x, y), rgb) = batch[q];
            assert(batch@.take(q as int + 1).drop_last() == batch@.take(q as int));
            self.set(x, y, rgb);
            q = q + 1;
        }
        assert(batch@.take(batch.len() as int) == batch@);
    }

    fn gray(&self, x: usize, y: usize) -> (g: i32)
        requires
            self.wf(),
            x < self.spec_width(),
            y < self.spec_height(),
        ensures
            g == self.gray_at(x as int, y as int),
    {
        let p = self.get(x, y);
        gray_color(&p) as i32
    }

    fn edge_at(&self, x: usize, y: usize, level: u32) -> (r: [u8; 3])
        requires
            self.wf(),
            x < self.spec_width(),
            y < self.spec_height(),
        ensures
            r == self.edge_pixel(x as int, y as int, level as nat),
    {
        if x == 0 || y == 0 || x + 1 >= self.width || y + 1 >= self.height {
            return [0u8, 0u8, 0u8];
        }
        let a = self.gray(x - 1, y - 1);
        let b = self.gray(x, y - 1);
        let c = self.gray(x + 1, y - 1);
        let d = self.gray(x - 1, y);
        let f = self.gray(x + 1, y);
        let g = self.gray(x - 1, y + 1);
        let h = self.gray(x, y + 1);
        let i = self.gray(x + 1, y + 1);
        let sx: i32 = (c + 2 * f + i) - (a + 2 * d + g);
        let sy: i32 = (g + 2 * h + i) - (a + 2 * b + c);
        assert(-1020 <= sx <= 1020 && -1020 <= sy <= 1020);
        assert(0 <= sx * sx <= 1040400 && 0 <= sy * sy <= 1040400) by (nonlinear_arith)
            requires
                -1020 <= sx <= 1020,
                -1020 <= sy <= 1020,
        ;
        let mag: u64 = (sx * sx + sy * sy) as u64;
        let lv: u64 = level as u64;
        assert(lv * lv <= u64::MAX) by (nonlinear_arith)
            requires
                lv <= u32::MAX,
        ;
        if mag > lv * lv {
            [0u8, 0u8, 0u8]
        } else {
            self.get(x, y)
        }
    }

    /// Marks edges: a new image of the same size, black on the border and
    /// wherever the Sobel gradient of the gray levels (each pixel's brightest
    /// channel) is steeper than `level`, and a copy of this image elsewhere.
    pub fn edge_detect(&self, level: u32) -> (r: Framebuffer)
        requires
            self.wf(),
        ensures
            r.wf(),
            r.spec_width() == self.spec_width(),
            r.spec_height() == self.spec_height(),
            forall|x: int, y: int|
                0 <= x < self.spec_width() && 0 <= y < self.spec_height() ==> #[trigger] r.pixel(
                    x,
                    y,
                ) == self.edge_pixel(x, y, level as nat),
    {
        let w = self.width;
        let h = self.height;
        let mut out: Vec<[u8; 3]> = Vec::new();
        assert(0 * w == 0);
        for y in 0..h
            invariant
                w == self.spec_width(),
                h == self.spec_height(),
                self.wf(),
                out@ =~= Seq::new(
                    (y * w) as nat,
                    |q: int| self.edge_pixel(q % (w as int), q / (w as int), level as nat),
                ),
        {
            for x in 0..w
                invariant
                    w == self.spec_width(),
                    h == self.spec_height(),
                    y < h,
                    self.wf(),
                    out@ =~= Seq::new(
                        (y * w + x) as nat,
                        |q: int| self.edge_pixel(q % (w as int), q / (w as int), level as nat),
                    ),
            {
                let p = self.edge_at(x, y, level);
                proof {
                    lemma_fundamental_div_mod_converse(
                        (y * w + x) as int,
                        w as int,
                        y as int,
                        x as int,
                    );
                }
                out.push(p);
            }
            assert((y + 1) * w == y * w + w) by (nonlinear_arith);
        }
        assert(h * w == w * h) by (nonlinear_arith);
        let r = Framebuffer { width: w, height: h, pixels: out };
        assert forall|x: int, y: int|
            0 <= x < self.spec_width() && 0 <= y < self.spec_height() implies #[trigger] r.pixel(
            x,
            y,
        ) == self.edge_pixel(x, y, level as nat) by {
            lemma_index_in_image(x, y, w as int, h as int);
            lemma_fundamental_div_mod_converse(y * w + x, w as int, y, x);
        }
        r
    }
}

/// `pixels`, an image `w` pixels wide, after each entry of `batch` in turn has
/// set its pixel.
pub open spec fn written(
    pixels: Seq<[u8; 3]>,
    w: nat,
    batch: Seq<((usize, usize), [u8; 3])>,
) -> Seq<[u8; 3]>
    decreases batch.len(),
{
    if batch.len() == 0 {
        pixels
    } else {
        let ((x, y), rgb) = batch.last();
        written(pixels, w, batch.drop_last()).update(y * w + x, rgb)
    }
}

/// Writing one batch after another is writing the two as one batch: the
/// results of several workers can be written in any grouping.
pub proof fn lemma_written_concat(
    pixels: Seq<[u8; 3]>,
    w: nat,
    a: Seq<((usize, usize), [u8; 3])>,
    b: Seq<((usize, usize), [u8; 3])>,
)
    ensures
        written(pixels, w, a + b) == written(written(pixels, w, a), w, b),
    decreases b.len(),
{
    if b.len() == 0 {
        assert(a + b =~= a);
    } else {
        lemma_written_concat(pixels, w, a, b.drop_last());
        assert((a + b).drop_last() =~= a + b.drop_last());
        assert((a + b).last() == b.last());
    }
}

/// The place of pixel `(x, y)` in an image `w` pixels wide.
pub open spec fn place(x: int, y: int, w: int) -> int {
    y * w + x
}

/// Distinct pixels of an image have distinct places.
proof fn lemma_place_injective(x1: int, y1: int, x2: int, y2: int, w: int)
    requires
        0 <= x1 < w,
        0 <= x2 < w,
        0 <= y1,
        0 <= y2,
        place(x1, y1, w) == place(x2, y2, w),
    ensures
        x1 == x2 && y1 == y2,
{
    lemma_fundamental_div_mod_converse(place(x1, y1, w), w, y1, x1);
    lemma_fundamental_div_mod_converse(place(x2, y2, w), w, y2, x2);
}

/// When no two entries of a batch name the same pixel, writing the batch gives
/// each named pixel the color of its entry and leaves every other pixel as it
/// was, whatever the order of the entries: each pixel is written at most once.
pub proof fn lemma_written_distinct(
    pixels: Seq<[u8; 3]>,
    w: nat,
    h: nat,
    batch: Seq<((usize, usize), [u8; 3])>,
)
    requires
        pixels.len() == w * h,
        forall|q: int| 0 <= q < batch.len() ==> (#[trigger] batch[q]).0.0 < w && batch[q].0.1 < h,
        forall|p: int, q: int|
            0 <= p < batch.len() && 0 <= q < batch.len() && p != q ==> (#[trigger] batch[p]).0
                != (#[trigger] batch[q]).0,
    ensures
        written(pixels, w, batch).len() == pixels.len(),
        forall|q: int|
            0 <= q < batch.len() ==> written(pixels, w, batch)[place(
                (#[trigger] batch[q]).0.0 as int,
                batch[q].0.1 as int,
                w as int,
            )] == batch[q].1,
        forall|k: int|
            0 <= k < pixels.len() && (forall|q: int|
                0 <= q < batch.len() ==> place(
                    (#[trigger] batch[q]).0.0 as int,
                    batch[q].0.1 as int,
                    w as int,
                ) != k) ==> #[trigger] written(pixels, w, batch)[k] == pixels[k],
    decreases batch.len(),
{
    if batch.len() > 0 {
        let rest = batch.drop_last();
        let n = batch.len() - 1;
        let ((lx, ly), lrgb) = batch.last();
        lemma_written_distinct(pixels, w, h, rest);
        lemma_index_in_image(lx as int, ly as int, w as int, h as int);
        let before = written(pixels, w, rest);
        assert forall|q: int| 0 <= q < batch.len() implies written(pixels, w, batch)[place(
            (#[trigger] batch[q]).0.0 as int,
            batch[q].0.1 as int,
            w as int,
        )] == batch[q].1 by {
            if q < n {
                assert(rest[q] == batch[q]);
                lemma_index_in_image(batch[q].0.0 as int, batch[q].0.1 as int, w as int, h as int);
                if place(batch[q].0.0 as int, batch[q].0.1 as int, w as int) == place(
                    lx as int,
                    ly as int,
                    w as int,
                ) {
                    lemma_place_injective(
                        batch[q].0.0 as int,
                        batch[q].0.1 as int,
                        lx as int,
                        ly as int,
                        w as int,
                    );
                    assert(batch[q].0 == batch[n].0);
                }
            }
        }
        assert forall|k: int|
            0 <= k < pixels.len() && (forall|q: int|
                0 <= q < batch.len() ==> place(
                    (#[trigger] batch[q]).0.0 as int,
                    batch[q].0.1 as int,
                    w as int,
                ) != k) implies #[trigger] written(pixels, w, batch)[k] == pixels[k] by {
            assert forall|q: int| 0 <= q < rest.len() implies place(
                (#[trigger] rest[q]).0.0 as int,
                rest[q].0.1 as int,
                w as int,
            ) != k by {
                assert(rest[q] == batch[q]);
            }
            assert(place(batch[n].0.0 as int, batch[n].0.1 as int, w as int) != k);
        }
    }
}

proof fn lemma_index_in_image(x: int, y: int, w: int, h: int)
    requires
        0 <= x < w,
        0 <= y < h,
    ensures
        0 <= y * w <= y * w + x < w * h,
        w * h == h * w,
{
    assert(w * h == h * w) by (nonlinear_arith);
    assert(0 <= y * w <= y * w + x < w * h) by (nonlinear_arith)
        requires
            0 <= x < w,
            0 <= y < h,
    ;
}

} // verus!
