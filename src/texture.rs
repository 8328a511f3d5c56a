use vstd::prelude::*;

verus! {

/// A pixel position in a texture; the upper left corner is `(0, 0)`.
#[derive(Copy, Clone, Debug, PartialEq, Eq, Hash, Structural)]
pub struct PixelCoord2D {
    pub x: u32,
    pub y: u32,
}

impl PixelCoord2D {
    /// Row-major index of this pixel in a texture `width` pixels wide.
    pub open spec fn index_spec(self, width: u32) -> int {
        self.y as int * width as int + self.x as int
    }

    /// Whether this pixel lies inside a `width` by `height` texture.
    pub open spec fn in_bounds(self, width: u32, height: u32) -> bool {
        self.x < width && self.y < height
    }

    pub fn to_pixel_index(&self, width: u32) -> (r: usize)
        requires
            self.index_spec(width) <= usize::MAX,
        ensures
            r as int == self.index_spec(width),
    {
        proof {
            assert(0 <= self.y as int * width as int) by (nonlinear_arith);
        }
        self.y as usize * width as usize + self.x as usize
    }

    /// The pixel that holds texture cell `(cell_x, cell_y)`, where cells are
    /// counted from the lower left corner (the scaled and floored texture
    /// coordinate). Rows are flipped by the texture's height, and a cell past
    /// the last column or row (a coordinate of exactly 1) maps to that last one.
    pub fn from_texture_cell(cell_x: u32, cell_y: u32, width: u32, height: u32) -> (r: PixelCoord2D)
        requires
            width > 0,
            height > 0,
        ensures
            r.in_bounds(width, height),
            r.x == if cell_x < width { cell_x } else { (width - 1) as u32 },
            r.y == height - 1 - (if cell_y < height { cell_y } else { (height - 1) as u32 }),
    {
        let x = if cell_x < width { cell_x } else { width - 1 };
        let row = if cell_y < height { cell_y } else { height - 1 };
        PixelCoord2D { x, y: height - 1 - row }
    }
}

/// A `width` by `height` image stored row by row, upper row first.
#[derive(Clone, Debug)]
pub struct Texture2D<T> {
    width: u32,
    height: u32,
    pixels: Vec<T>,
}

impl<T> Texture2D<T> {
    /// The pixel buffer holds exactly `width * height` values.
    pub open spec fn wf(&self) -> bool {
        self.pixel_seq().len() == self.spec_width() as int * self.spec_height() as int
    }

    pub closed spec fn spec_width(&self) -> u32 {
        self.width
    }

    pub closed spec fn spec_height(&self) -> u32 {
        self.height
    }

    /// The pixels in row-major order.
    pub closed spec fn pixel_seq(&self) -> Seq<T> {
        self.pixels@
    }

    /// The value at pixel `i`.
    pub open spec fn pixel_at(&self, i: PixelCoord2D) -> T {
        self.pixel_seq()[i.index_spec(self.spec_width())]
    }

    proof fn lemma_index_in_range(i: PixelCoord2D, width: u32, height: u32)
        requires
            i.in_bounds(width, height),
        ensures
            0 <= i.index_spec(width) < width as int * height as int,
    {
        let w = width as int;
        let h = height as int;
        let x = i.x as int;
        let y = i.y as int;
        assert(0 <= y * w + x < w * h) by (nonlinear_arith)
            requires
                0 <= x < w,
                0 <= y < h,
        ;
    }

    proof fn lemma_index_injective(i: PixelCoord2D, j: PixelCoord2D, width: u32)
        requires
            i.x < width,
            j.x < width,
            i != j,
        ensures
            i.index_spec(width) != j.index_spec(width),
    {
        let w = width as int;
        if i.y == j.y {
            assert(i.x != j.x);
        } else if i.y < j.y {
            assert(i.y as int * w + w <= j.y as int * w) by (nonlinear_arith)
                requires
                    i.y < j.y,
                    w >= 0,
            ;
        } else {
            assert(j.y as int * w + w <= i.y as int * w) by (nonlinear_arith)
                requires
                    j.y < i.y,
                    w >= 0,
            ;
        }
    }

    pub fn new(width: u32, height: u32) -> (r: Self)
        where
            T: Default,
        requires
            width as int * height as int <= usize::MAX,
        ensures
            r.wf(),
            r.spec_width() == width,
            r.spec_height() == height,
            r.pixel_seq().len() == width as int * height as int,
            forall|i: int|
                0 <= i < r.pixel_seq().len() ==> call_ensures(T::default, (), #[trigger] r.pixel_seq()[i]),
    {
        let n = width as usize * height as usize;
        let mut pixels: Vec<T> = Vec::with_capacity(n);
        let mut k: usize = 0;
        while k < n
            invariant
                k <= n,
                pixels.len() == k,
                forall|i: int| 0 <= i < k ==> call_ensures(T::default, (), #[trigger] pixels@[i]),
            decreases n - k,
        {
            pixels.push(T::default());
            k = k + 1;
        }
        Texture2D { width, height, pixels }
    }

    pub fn new_from(width: u32, height: u32, value: T) -> (r: Self)
        where
            T: Clone,
        requires
            width as int * height as int <= usize::MAX,
        ensures
            r.wf(),
            r.spec_width() == width,
            r.spec_height() == height,
            r.pixel_seq().len() == width as int * height as int,
            forall|i: int| 0 <= i < r.pixel_seq().len() ==> cloned(value, #[trigger] r.pixel_seq()[i]),
    {
        let n = width as usize * height as usize;
        let mut pixels: Vec<T> = Vec::with_capacity(n);
        let mut k: usize = 0;
        while k < n
            invariant
                k <= n,
                pixels.len() == k,
                forall|i: int| 0 <= i < k ==> cloned(value, #[trigger] pixels@[i]),
            decreases n - k,
        {
            pixels.push(value.clone());
            k = k + 1;
        }
        Texture2D { width, height, pixels }
    }

    pub fn new_from_pixels(width: u32, height: u32, pixels: Vec<T>) -> (r: Self)
        requires
            width as int * height as int == pixels.len(),
        ensures
            r.wf(),
            r.spec_width() == width,
            r.spec_height() == height,
            r.pixel_seq() == pixels@,
    {
        Texture2D { width, height, pixels }
    }

    pub fn width(&self) -> (r: u32)
        ensures
            r == self.spec_width(),
    {
        self.width
    }

    pub fn height(&self) -> (r: u32)
        ensures
            r == self.spec_height(),
    {
        self.height
    }

    /// A reference to the value at pixel `i`.
    pub fn pixel(&self, i: PixelCoord2D) -> (r: &T)
        requires
            self.wf(),
            i.in_bounds(self.spec_width(), self.spec_height()),
        ensures
            *r == self.pixel_at(i),
    {
        proof {
            assert(self.pixel_seq() == self.pixels@);
            Self::lemma_index_in_range(i, self.width, self.height);
        }
        let n = self.pixels.len();
        assert(i.index_spec(self.width) < n);
        let k = i.to_pixel_index(self.width);
        &self.pixels[k]
    }

    pub fn read_pixel(&self, i: PixelCoord2D) -> (r: T)
        where
            T: Clone,
        requires
            self.wf(),
            i.in_bounds(self.spec_width(), self.spec_height()),
        ensures
            cloned(self.pixel_at(i), r),
    {
        self.pixel(i).clone()
    }

    pub fn write_pixel(&mut self, i: PixelCoord2D, value: T)
        requires
            old(self).wf(),
            i.in_bounds(old(self).spec_width(), old(self).spec_height()),
        ensures
            final(self).wf(),
            final(self).spec_width() == old(self).spec_width(),
            final(self).spec_height() == old(self).spec_height(),
            final(self).pixel_seq() == old(self).pixel_seq().update(
                i.index_spec(old(self).spec_width()),
                value,
            ),
            final(self).pixel_at(i) == value,
            forall|j: PixelCoord2D|
                j.in_bounds(old(self).spec_width(), old(self).spec_height()) && j != i
                    ==> #[trigger] final(self).pixel_at(j) == old(self).pixel_at(j),
    {
        proof {
            assert(self.pixel_seq() == self.pixels@);
            Self::lemma_index_in_range(i, self.width, self.height);
            assert forall|j: PixelCoord2D|
                j.in_bounds(self.width, self.height) && j != i implies j.index_spec(self.width) != i.index_spec(
                    self.width,
                ) && 0 <= j.index_spec(self.width) < self.pixels@.len() by {
                Self::lemma_index_in_range(j, self.width, self.height);
                Self::lemma_index_injective(i, j, self.width);
            }
        }
        let n = self.pixels.len();
        assert(i.index_spec(self.width) < n);
        let k = i.to_pixel_index(self.width);
        self.pixels.set(k, value);
    }

    /// All pixels in row-major order.
    pub fn pixels(&self) -> (r: &[T])
        ensures
            r@ == self.pixel_seq(),
    {
        self.pixels.as_slice()
    }

    pub fn into_pixels(self) -> (r: Vec<T>)
        ensures
            r@ == self.pixel_seq(),
    {
        self.pixels
    }
}

} // verus!
