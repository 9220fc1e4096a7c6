//! The raster frame type. A `Frame` owns an `image` crate RGB pixel buffer;
//! its dimensions and pixel contents are named here so that contracts can
//! speak of them, and the few buffer operations the codec needs are wrapped
//! with contracts taken from the `image` crate's source.

use vstd::prelude::*;

verus! {

/// One raster frame: a fixed-size RGB pixel buffer. The struct is opaque to
/// the verifier; everything proved about a frame goes through `frame_width`,
/// `frame_height` and `frame_pixels`.
#[verifier::external_body]
pub struct Frame {
    img: image::RgbImage,
}

/// The width in pixels of a frame.
pub uninterp spec fn frame_width(f: Frame) -> int;

/// The height in pixels of a frame.
pub uninterp spec fn frame_height(f: Frame) -> int;

/// The channel values of each pixel of a frame, keyed by (x, y).
pub uninterp spec fn frame_pixels(f: Frame) -> Map<(int, int), (u8, u8, u8)>;

/// Relies on `image::ImageBuffer::new`: it returns a buffer of the requested
/// dimensions with every subpixel zero. It sizes the buffer by two checked
/// multiplications, `3 * width` and then `* height`, and panics when either
/// overflows `usize`; both preconditions below exclude that.
#[verifier::external_body]
pub(crate) fn new_frame(width: u32, height: u32) -> (f: Frame)
    requires
        3 * (width as int) <= usize::MAX as int,
        3 * (width as int) * (height as int) <= usize::MAX as int,
    ensures
        frame_width(f) == width as int,
        frame_height(f) == height as int,
        forall|x: int, y: int|
            0 <= x < width && 0 <= y < height ==> #[trigger] frame_pixels(f)[(x, y)] == (
            0u8,
            0u8,
            0u8,
            ),
{
    Frame { img: image::RgbImage::new(width, height) }
}

/// Relies on `image::ImageBuffer::put_pixel`: it overwrites the pixel at
/// (x, y) and nothing else, and panics only out of bounds. All three channels
/// are set to `level`.
#[verifier::external_body]
pub(crate) fn put_frame_pixel(f: &mut Frame, x: u32, y: u32, level: u8)
    requires
        (x as int) < frame_width(*old(f)),
        (y as int) < frame_height(*old(f)),
    ensures
        frame_width(*final(f)) == frame_width(*old(f)),
        frame_height(*final(f)) == frame_height(*old(f)),
        frame_pixels(*final(f)) == frame_pixels(*old(f)).insert(
            (x as int, y as int),
            (level, level, level),
        ),
{
    f.img.put_pixel(x, y, image::Rgb([level, level, level]));
}

/// Relies on `image::ImageBuffer::get_pixel`: it returns the pixel at (x, y)
/// and panics only out of bounds. The first channel's value is handed back.
#[verifier::external_body]
pub(crate) fn get_frame_level(f: &Frame, x: u32, y: u32) -> (r: u8)
    requires
        (x as int) < frame_width(*f),
        (y as int) < frame_height(*f),
    ensures
        r == frame_pixels(*f)[(x as int, y as int)].0,
{
    f.img.get_pixel(x, y).0[0]
}

/// Relies on `image::ImageBuffer::width`: it returns the buffer's width.
#[verifier::external_body]
pub(crate) fn frame_width_px(f: &Frame) -> (r: u32)
    ensures
        r as int == frame_width(*f),
{
    f.img.width()
}

/// Relies on `image::ImageBuffer::height`: it returns the buffer's height.
#[verifier::external_body]
pub(crate) fn frame_height_px(f: &Frame) -> (r: u32)
    ensures
        r as int == frame_height(*f),
{
    f.img.height()
}

impl Frame {
    /// The frame's width in pixels.
    pub fn width(&self) -> (r: u32)
        ensures
            r as int == frame_width(*self),
    {
        frame_width_px(self)
    }

    /// The frame's height in pixels.
    pub fn height(&self) -> (r: u32)
        ensures
            r as int == frame_height(*self),
    {
        frame_height_px(self)
    }

    /// The first channel of the pixel at (x, y), or `None` out of bounds.
    pub fn level_at(&self, x: u32, y: u32) -> (r: Option<u8>)
        ensures
            match r {
                Some(l) => x < frame_width(*self) && y < frame_height(*self) && l == frame_pixels(
                    *self,
                )[(x as int, y as int)].0,
                None => x >= frame_width(*self) || y >= frame_height(*self),
            },
    {
        if x < self.width() && y < self.height() {
            Some(get_frame_level(self, x, y))
        } else {
            None
        }
    }

    /// Builds a frame of the given dimensions whose pixel at (x, y) holds
    /// `levels[y * width + x]` in all three channels. Returns `None` when
    /// `levels` has the wrong length, or the frame's pixel buffer — or a
    /// single three-channel pixel row of it — would not fit in memory.
    pub fn from_levels(width: u32, height: u32, levels: &Vec<u8>) -> (r: Option<Frame>)
        ensures
            match r {
                Some(f) => {
                    &&& levels@.len() == (width as int) * (height as int)
                    &&& 3 * (width as int) <= usize::MAX as int
                    &&& 3 * (width as int) * (height as int) <= usize::MAX as int
                    &&& frame_width(f) == width as int
                    &&& frame_height(f) == height as int
                    &&& forall|x: int, y: int|
                        0 <= x < width && 0 <= y < height ==> #[trigger] frame_pixels(f)[(x, y)]
                            == level_triple(levels@[y * width + x])
                },
                None => levels@.len() != (width as int) * (height as int) || 3 * (width as int) * (
                height as int) > usize::MAX as int || 3 * (width as int) > usize::MAX as int,
            },
    {
        proof {
            let w = width as int;
            let h = height as int;
            let m = usize::MAX as int;
            assert(w * h <= 0xffff_ffff * 0xffff_ffff) by (nonlinear_arith)
                requires
                    0 <= w <= 0xffff_ffff && 0 <= h <= 0xffff_ffff,
            ;
            assert(w <= m / 3 <==> 3 * w <= m) by (nonlinear_arith)
                requires
                    w >= 0 && m >= 3,
            ;
            assert(w * h <= m / 3 <==> 3 * (w * h) <= m) by (nonlinear_arith)
                requires
                    w >= 0 && h >= 0 && m >= 3,
            ;
            assert(3 * (w * h) == 3 * w * h) by (nonlinear_arith);
        }
        if (width as u64) > (usize::MAX as u64) / 3 {
            return None;
        }
        let area = (width as u64) * (height as u64);
        if area > (usize::MAX as u64) / 3 {
            return None;
        }
        if (levels.len() as u64) != area {
            return None;
        }
        let mut f = new_frame(width, height);
        let mut y: u32 = 0;
        while y < height
            invariant
                y <= height,
                (width as int) * (height as int) <= usize::MAX as int,
                levels@.len() == (width as int) * (height as int),
                frame_width(f) == width as int,
                frame_height(f) == height as int,
                forall|px: int, py: int|
                    0 <= px < width && 0 <= py < height ==> #[trigger] frame_pixels(f)[(px, py)]
                        == if py < y {
                        level_triple(levels@[py * width + px])
                    } else {
                        (0u8, 0u8, 0u8)
                    },
            decreases height - y,
        {
            let mut x: u32 = 0;
            while x < width
                invariant
                    x <= width,
                    y < height,
                    (width as int) * (height as int) <= usize::MAX as int,
                    levels@.len() == (width as int) * (height as int),
                    frame_width(f) == width as int,
                    frame_height(f) == height as int,
                    forall|px: int, py: int|
                        0 <= px < width && 0 <= py < height ==> #[trigger] frame_pixels(f)[(
                        px,
                        py,
                        )] == if py < y || (py == y && px < x) {
                            level_triple(levels@[py * width + px])
                        } else {
                            (0u8, 0u8, 0u8)
                        },
                decreases width - x,
            {
                proof {
                    let w = width as int;
                    let h = height as int;
                    assert((y as int) * w + (x as int) < h * w) by (nonlinear_arith)
                        requires
                            0 <= (x as int) < w && 0 <= (y as int) < h,
                    ;
                    assert(h * w == w * h) by (nonlinear_arith);
                }
                let idx: usize = (y as usize) * (width as usize) + (x as usize);
                put_frame_pixel(&mut f, x, y, levels[idx]);
                x = x + 1;
            }
            y = y + 1;
        }
        Some(f)
    }
}

/// The color a level paints: the same value in all three channels.
pub open spec fn level_triple(l: u8) -> (u8, u8, u8) {
    (l, l, l)
}

} // verus!
