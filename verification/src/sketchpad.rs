//! The canvas that a render is drawn on.

use vstd::prelude::*;

verus! {

/// A canvas of RGB pixels, kept in an `RgbImage` of the crate `image`.
#[verifier::external_body]
pub struct Sketchpad {
    image: image::RgbImage,
}

/// The samples of a canvas: three bytes for each pixel, red, green and
/// blue, row by row from the top left.
pub uninterp spec fn sketchpad_bytes(pad: Sketchpad) -> Seq<u8>;

/// The width and the height of a canvas.
pub uninterp spec fn sketchpad_size(pad: Sketchpad) -> (u32, u32);

/// `bytes` with the three samples of pixel number `index` set to `rgb`.
pub open spec fn with_pixel(bytes: Seq<u8>, index: int, rgb: Seq<u8>) -> Seq<u8> {
    bytes.update(3 * index, rgb[0]).update(3 * index + 1, rgb[1]).update(3 * index + 2, rgb[2])
}

/// Whether the samples of the first `n` pixels are those of `pixels`.
pub open spec fn shows(bytes: Seq<u8>, pixels: Seq<[u8; 3]>, n: int) -> bool {
    forall|i: int, c: int|
        0 <= i < n && 0 <= c < 3 ==> #[trigger] bytes[3 * i + c] == pixels[i]@[c]
}

impl Sketchpad {
    /// The width of the canvas as a value.
    pub open spec fn spec_width(self) -> u32 {
        sketchpad_size(self).0
    }

    /// The height of the canvas as a value.
    pub open spec fn spec_height(self) -> u32 {
        sketchpad_size(self).1
    }

    /// The canvas holds three samples for each of its pixels.
    pub open spec fn wf(self) -> bool {
        sketchpad_bytes(self).len() == self.spec_width() * self.spec_height() * 3
    }

    /// Makes the canvas with `ImageBuffer::new`.
    ///
    /// Claimed of it: the canvas has the size asked for and all its
    /// samples are zero. Sizes whose samples do not fit a vector, on which
    /// `ImageBuffer::new` panics, are left out.
    #[verifier::external_body]
    fn blank(width: u32, height: u32) -> (pad: Sketchpad)
        requires
            width * height * 3 <= isize::MAX,
        ensures
            sketchpad_size(pad) == (width, height),
            sketchpad_bytes(pad) == Seq::new((width * height * 3) as nat, |i: int| 0u8),
    {
        Sketchpad { image: image::ImageBuffer::new(width, height) }
    }

    /// Sets one pixel with `ImageBuffer::put_pixel`.
    ///
    /// Claimed of it: the size stays, and of the samples only the three of
    /// the pixel in column `x` of row `y` change, to `rgb`. Places outside
    /// the canvas, on which `put_pixel` panics, are left out.
    #[verifier::external_body]
    fn put(&mut self, x: u32, y: u32, rgb: [u8; 3])
        requires
            x < sketchpad_size(*old(self)).0,
            y < sketchpad_size(*old(self)).1,
        ensures
            sketchpad_size(*final(self)) == sketchpad_size(*old(self)),
            sketchpad_bytes(*final(self)) == with_pixel(
                sketchpad_bytes(*old(self)),
                y * sketchpad_size(*old(self)).0 + x,
                rgb@,
            ),
    {
        self.image.put_pixel(x, y, image::Rgb(rgb));
    }

    /// Reads the size with `ImageBuffer::dimensions`.
    #[verifier::external_body]
    fn extent(&self) -> (size: (u32, u32))
        ensures
            size == sketchpad_size(*self),
    {
        self.image.dimensions()
    }

    /// Copies the samples out of `ImageBuffer::as_raw`.
    #[verifier::external_body]
    fn samples(&self) -> (bytes: Vec<u8>)
        ensures
            bytes@ == sketchpad_bytes(*self),
    {
        self.image.as_raw().clone()
    }

    /// A black canvas of the given size.
    pub fn new(width: u32, height: u32) -> (pad: Sketchpad)
        requires
            width * height * 3 <= isize::MAX,
        ensures
            pad.spec_width() == width,
            pad.spec_height() == height,
            pad.wf(),
            forall|i: int| 0 <= i < width * height * 3 ==> sketchpad_bytes(pad)[i] == 0,
    {
        Sketchpad::blank(width, height)
    }

    pub fn width(&self) -> (w: u32)
        ensures
            w == self.spec_width(),
    {
        self.extent().0
    }

    pub fn height(&self) -> (h: u32)
        ensures
            h == self.spec_height(),
    {
        self.extent().1
    }

    /// The samples of the canvas, three bytes for each pixel, row by row.
    pub fn to_bytes(&self) -> (bytes: Vec<u8>)
        ensures
            bytes@ == sketchpad_bytes(*self),
    {
        self.samples()
    }

    /// Sets the pixel in column `x` of row `y` to the colour `rgb`.
    pub fn draw(&mut self, x: u32, y: u32, rgb: [u8; 3])
        requires
            x < old(self).spec_width(),
            y < old(self).spec_height(),
        ensures
            final(self).spec_width() == old(self).spec_width(),
            final(self).spec_height() == old(self).spec_height(),
            sketchpad_bytes(*final(self)) == with_pixel(
                sketchpad_bytes(*old(self)),
                y * old(self).spec_width() + x,
                rgb@,
            ),
            old(self).wf() ==> final(self).wf(),
    {
        proof {
            lemma_place_in_picture(
                x as int,
                y as int,
                self.spec_width() as int,
                self.spec_height() as int,
            );
        }
        self.put(x, y, rgb);
    }

    /// Draws a whole picture: `pixels` holds the colours row by row from
    /// the top left, one for each pixel of the canvas.
    pub fn draw_all(&mut self, pixels: &Vec<[u8; 3]>)
        requires
            old(self).wf(),
            pixels.len() == old(self).spec_width() * old(self).spec_height(),
        ensures
            final(self).spec_width() == old(self).spec_width(),
            final(self).spec_height() == old(self).spec_height(),
            final(self).wf(),
            shows(sketchpad_bytes(*final(self)), pixels@, pixels.len() as int),
    {
        let width = self.width();
        let height = self.height();
        let mut y: u32 = 0;
        while y < height
            invariant
                y <= height,
                self.spec_width() == width,
                self.spec_height() == height,
                self.wf(),
                pixels.len() == width * height,
                shows(sketchpad_bytes(*self), pixels@, y * width),
            decreases height - y,
        {
            let mut x: u32 = 0;
            while x < width
                invariant
                    x <= width,
                    y < height,
                    self.spec_width() == width,
                    self.spec_height() == height,
                    self.wf(),
                    pixels.len() == width * height,
                    shows(sketchpad_bytes(*self), pixels@, y * width + x),
                decreases width - x,
            {
                proof {
                    lemma_place_in_picture(x as int, y as int, width as int, height as int);
                }
                let idx = (y as usize) * (width as usize) + (x as usize);
                let ghost before = sketchpad_bytes(*self);
                self.draw(x, y, pixels[idx]);
                proof {
                    let after = sketchpad_bytes(*self);
                    assert forall|i: int, c: int| 0 <= i < idx + 1 && 0 <= c < 3 implies #[trigger] after[3
                        * i + c] == pixels@[i]@[c] by {
                        if i < idx {
                            assert(before[3 * i + c] == pixels@[i]@[c]);
                        }
                    }
                }
                x += 1;
            }
            proof {
                assert(y * width + width == (y + 1) * width) by (nonlinear_arith);
            }
            y += 1;
        }
        proof {
            assert(height * width == width * height) by (nonlinear_arith);
        }
    }
}

/// The pixel in column `x` of row `y` has a number below the number of
/// pixels.
pub proof fn lemma_place_in_picture(x: int, y: int, w: int, h: int)
    requires
        0 <= x < w,
        0 <= y < h,
    ensures
        0 <= y * w,
        0 <= y * w + x < w * h,
{
    assert(0 <= y * w && y * w + w <= w * h) by (nonlinear_arith)
        requires
            0 <= y < h,
            0 < w,
    ;
}

} // verus!
