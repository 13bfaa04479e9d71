use vstd::prelude::*;

verus! {

/// Bytes per pixel of decoded RGB8 image data.
pub const BYTES_PER_PIXEL: u32 = 3;

/// Decoded RGB8 image bytes, row after row, looked up by nearest pixel.
#[derive(Clone)]
pub struct ImageTexture {
    data: Vec<u8>,
    width: u32,
    height: u32,
    bytes_per_scanline: u32,
}

impl ImageTexture {
    pub closed spec fn bytes(&self) -> Seq<u8> {
        self.data@
    }

    pub closed spec fn spec_width(&self) -> nat {
        self.width as nat
    }

    pub closed spec fn spec_height(&self) -> nat {
        self.height as nat
    }

    pub closed spec fn wf(&self) -> bool {
        &&& self.data@.len() == 3 * self.width * self.height
        &&& 3 * self.width * self.height <= usize::MAX
        &&& self.bytes_per_scanline == 3 * self.width
        &&& 3 * self.width <= u32::MAX
    }

    /// The nearest pixel to `(i, j)` inside the image: each coordinate is cut
    /// down to the last column or row.
    pub open spec fn clamped(&self, i: int, j: int) -> (int, int) {
        (
            if i < self.spec_width() { i } else { self.spec_width() - 1 },
            if j < self.spec_height() { j } else { self.spec_height() - 1 },
        )
    }

    /// The three bytes of pixel `(i, j)`.
    pub open spec fn rgb_at(&self, i: int, j: int) -> [u8; 3] {
        let at = 3 * (j * self.spec_width() + i);
        [self.bytes()[at], self.bytes()[at + 1], self.bytes()[at + 2]]
    }

    /// A texture over `data`, the RGB8 bytes of a `width` by `height` image.
    pub fn from_rgb8(data: Vec<u8>, width: u32, height: u32) -> (r: ImageTexture)
        requires
            data.len() == 3 * width * height,
            3 * width * height <= usize::MAX,
            3 * width <= u32::MAX,
        ensures
            r.wf(),
            r.bytes() == data@,
            r.spec_width() == width,
            r.spec_height() == height,
    {
        ImageTexture { data, width, height, bytes_per_scanline: BYTES_PER_PIXEL * width }
    }

    pub fn width(&self) -> (r: u32)
        ensures
            r == self.spec_width(),
    {
        self.width
    }

    pub fn height(&self) -> (r: u32)
        ensures
            r == self.spec_height(),
    {
        self.height
    }

    /// The texture holds no image data.
    pub fn empty(&self) -> (r: bool)
        ensures
            r == (self.bytes().len() == 0),
    {
        self.data.len() == 0
    }

    /// The bytes of the pixel nearest to column `i` of row `j`.
    pub fn texel(&self, i: u32, j: u32) -> (r: [u8; 3])
        requires
            self.wf(),
            self.bytes().len() > 0,
        ensures
            r == self.rgb_at(self.clamped(i as int, j as int).0, self.clamped(i as int, j as int).1),
    {
        assert(self.width > 0 && self.height > 0) by (nonlinear_arith)
            requires
                self.data@.len() == 3 * self.width * self.height,
                self.data@.len() > 0,
        ;
        let i = if i < self.width {
            i
        } else {
            self.width - 1
        };
        let j = if j < self.height {
            j
        } else {
            self.height - 1
        };
        let w = self.width as usize;
        let row = self.bytes_per_scanline as usize;
        proof {
            assert(3 * (j * w + i) + 2 < 3 * w * self.height) by (nonlinear_arith)
                requires
                    i < w,
                    j < self.height,
            ;
            assert(3 * w * self.height == 3 * self.width * self.height);
            assert(j * row + i * 3 == 3 * (j * w + i)) by (nonlinear_arith)
                requires
                    row == 3 * w,
            ;
        }
        let index = j as usize * row + i as usize * 3;
        [self.data[index], self.data[index + 1], self.data[index + 2]]
    }
}

impl Default for ImageTexture {
    fn default() -> (r: ImageTexture)
        ensures
            r.wf(),
            r.bytes().len() == 0,
            r.spec_width() == 0,
            r.spec_height() == 0,
    {
        ImageTexture { data: Vec::new(), width: 0, height: 0, bytes_per_scanline: 0 }
    }
}

} // verus!
