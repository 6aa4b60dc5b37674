//! Gray-scale and RGB pixel buffers.

use vstd::prelude::*;

verus! {

/// A gray-scale image: `width * height` samples, row after row.
#[derive(Debug, Clone)]
pub struct GrayScaleImage {
    pub data: Vec<u8>,
    pub width: i32,
    pub height: i32,
}

/// Dimensions whose pixel count fits an `i32`.
pub open spec fn valid_dims(width: int, height: int) -> bool {
    0 <= width && 0 <= height && width * height <= i32::MAX
}

/// The position of pixel (x, y) in a row-major buffer of rows of `width`.
pub open spec fn pixel_index(width: int, x: int, y: int) -> int {
    x + y * width
}

/// A pixel count below `i32::MAX` bounds each index inside the image.
pub proof fn lemma_index_in_range(width: int, height: int, x: int, y: int)
    requires
        valid_dims(width, height),
        0 <= x < width,
        0 <= y < height,
    ensures
        0 <= pixel_index(width, x, y) < width * height,
{
    assert(y * width <= (height - 1) * width) by (nonlinear_arith)
        requires
            0 <= y < height,
            0 <= width,
    ;
    assert((height - 1) * width + width == width * height) by (nonlinear_arith);
    assert(0 <= y * width) by (nonlinear_arith)
        requires
            0 <= y,
            0 <= width,
    ;
}

impl GrayScaleImage {
    /// Valid dimensions and one sample per pixel.
    pub open spec fn wf(&self) -> bool {
        valid_dims(self.width as int, self.height as int) && self.data@.len() == self.width
            * self.height
    }

    /// (x, y) lies inside the image.
    pub open spec fn in_bounds(&self, x: int, y: int) -> bool {
        0 <= x < self.width && 0 <= y < self.height
    }

    /// The sample of pixel (x, y).
    pub open spec fn pixel(&self, x: int, y: int) -> u8 {
        self.data@[pixel_index(self.width as int, x, y)]
    }

    /// A black image of the given dimensions.
    pub fn new(width: i32, height: i32) -> (r: Self)
        requires
            valid_dims(width as int, height as int),
        ensures
            r.wf(),
            r.width == width,
            r.height == height,
            forall|i: int| 0 <= i < r.data@.len() ==> r.data@[i] == 0,
    {
        let mut image = Self::with_dimensions(width, height);
        let n = (width * height) as usize;
        let mut i: usize = 0;
        while i < n
            invariant
                i <= n,
                n == width * height,
                image.width == width,
                image.height == height,
                image.data@.len() == i,
                forall|j: int| 0 <= j < i ==> image.data@[j] == 0,
            decreases n - i,
        {
            image.data.push(0);
            i = i + 1;
        }
        image
    }

    /// An image of the given dimensions with no sample yet, room for all of them.
    pub fn with_dimensions(width: i32, height: i32) -> (r: Self)
        requires
            valid_dims(width as int, height as int),
        ensures
            r.width == width,
            r.height == height,
            r.data@.len() == 0,
    {
        assert(0 <= width * height <= i32::MAX) by (nonlinear_arith)
            requires
                valid_dims(width as int, height as int),
        ;
        let pixels = (width * height) as usize;
        GrayScaleImage { data: Vec::with_capacity(pixels), width, height }
    }

    /// Sets the sample at index `x + y * width` to `color`; that index lies in
    /// the data, though (x, y) itself may lie outside the image.
    pub fn write_pixel(&mut self, x: i32, y: i32, color: u8)
        requires
            i32::MIN <= y * old(self).width <= i32::MAX,
            0 <= pixel_index(old(self).width as int, x as int, y as int) < old(self).data@.len(),
            pixel_index(old(self).width as int, x as int, y as int) <= i32::MAX,
        ensures
            final(self).width == old(self).width,
            final(self).height == old(self).height,
            final(self).data@ == old(self).data@.update(
                pixel_index(old(self).width as int, x as int, y as int),
                color,
            ),
    {
        let index = x + y * self.width;
        self.data.set(index as usize, color);
    }

    /// The sample of pixel (x, y), which lies inside the image.
    pub fn read_pixel(&self, x: i32, y: i32) -> (r: u8)
        requires
            self.wf(),
            self.in_bounds(x as int, y as int),
        ensures
            r == self.pixel(x as int, y as int),
    {
        proof {
            lemma_index_in_range(self.width as int, self.height as int, x as int, y as int);
        }
        let index = x + y * self.width;
        self.data[index as usize]
    }

    /// The sample of pixel (x, y), or `None` outside the image.
    pub fn read_pixel2(&self, x: i32, y: i32) -> (r: Option<u8>)
        requires
            self.wf(),
        ensures
            r == (if self.in_bounds(x as int, y as int) {
                Some(self.pixel(x as int, y as int))
            } else {
                None
            }),
    {
        if x < 0 || y < 0 || x >= self.width || y >= self.height {
            return None;
        }
        Some(self.read_pixel(x, y))
    }
}

/// An RGB image: three samples per pixel (red, green, blue), row after row.
pub struct MyRgbImage {
    pub data: Vec<u8>,
    pub width: i32,
    pub height: i32,
}

/// The gray level of a color: 0.3 R + 0.59 G + 0.11 B, rounded down.
pub open spec fn gray_of(r: u8, g: u8, b: u8) -> u8 {
    ((30 * r + 59 * g + 11 * b) / 100) as u8
}

impl MyRgbImage {
    /// Valid dimensions and three samples per pixel.
    pub open spec fn wf(&self) -> bool {
        valid_dims(self.width as int, self.height as int) && self.data@.len() == 3 * self.width
            * self.height
    }

    /// The gray-scale image of the same dimensions, each pixel `gray_of` its color.
    pub fn to_gray_scale_image(&self) -> (r: GrayScaleImage)
        requires
            self.wf(),
        ensures
            r.wf(),
            r.width == self.width,
            r.height == self.height,
            forall|i: int|
                0 <= i < r.data@.len() ==> #[trigger] r.data@[i] == gray_of(
                    self.data@[3 * i],
                    self.data@[3 * i + 1],
                    self.data@[3 * i + 2],
                ),
    {
        let mut image = GrayScaleImage::with_dimensions(self.width, self.height);
        assert(0 <= self.width * self.height <= i32::MAX) by (nonlinear_arith)
            requires
                valid_dims(self.width as int, self.height as int),
        ;
        assert(3 * self.width * self.height == 3 * (self.width * self.height)) by (nonlinear_arith);
        let n = (self.width * self.height) as usize;
        let total = self.data.len();
        let mut i: usize = 0;
        while i < n
            invariant
                i <= n,
                n == self.width * self.height,
                self.data@.len() == 3 * n,
                total == 3 * n,
                image.width == self.width,
                image.height == self.height,
                image.data@.len() == i,
                forall|j: int|
                    0 <= j < i ==> #[trigger] image.data@[j] == gray_of(
                        self.data@[3 * j],
                        self.data@[3 * j + 1],
                        self.data@[3 * j + 2],
                    ),
            decreases n - i,
        {
            let r = self.data[3 * i] as u32;
            let g = self.data[3 * i + 1] as u32;
            let b = self.data[3 * i + 2] as u32;
            let v = ((30 * r + 59 * g + 11 * b) / 100) as u8;
            image.data.push(v);
            i = i + 1;
        }
        image
    }
}

} // verus!
