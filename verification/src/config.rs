//! Codec configuration (frame geometry) and the error type shared by the
//! encoder and the decoder.

use vstd::prelude::*;

verus! {

/// Frame geometry shared by encoder and decoder: frame width and height in
/// pixels, and the side length of the square macropixel cells.
#[derive(Clone, Copy, Debug, PartialEq, Eq, Structural)]
pub struct CodecConfig {
    pub width: u32,
    pub height: u32,
    pub macro_size: u32,
}

/// Every way an encode or decode operation can fail. All are fatal to the
/// operation in progress; no partial output is ever returned beside one.
#[derive(Clone, Copy, Debug, PartialEq, Eq, Structural)]
pub enum CodecError {
    /// The width, height and macropixel size admit no macropixel cell, or
    /// describe a frame too large for memory.
    Config,
    /// The payload length cannot be represented in the 32-bit header.
    Precondition,
    /// The frame at `frame` measures `width` x `height` instead of the
    /// configured dimensions.
    Format { frame: usize, width: u32, height: u32 },
    /// Fewer bits are available than the header requires.
    TruncatedStream,
}

impl CodecConfig {
    /// Number of macropixel columns in a frame.
    pub open spec fn cols(self) -> int {
        self.width as int / self.macro_size as int
    }

    /// Number of macropixel rows in a frame.
    pub open spec fn rows(self) -> int {
        self.height as int / self.macro_size as int
    }

    /// Number of bits one frame carries.
    pub open spec fn cells_per_frame(self) -> int {
        self.cols() * self.rows()
    }

    /// A configuration is usable when at least one macropixel cell fits in a
    /// frame and the frame's three-channel pixel buffer fits in memory.
    pub open spec fn wf(self) -> bool {
        &&& self.macro_size >= 1
        &&& self.cols() >= 1
        &&& self.rows() >= 1
        &&& 3 * (self.width as int) * (self.height as int) <= usize::MAX as int
    }

    /// Decides `wf`.
    pub fn validate(&self) -> (r: bool)
        ensures
            r == self.wf(),
    {
        if self.macro_size == 0 {
            return false;
        }
        let cols = self.width / self.macro_size;
        let rows = self.height / self.macro_size;
        if cols == 0 || rows == 0 {
            return false;
        }
        proof {
            let w = self.width as int;
            let h = self.height as int;
            assert(w * h <= 0xffff_ffff * 0xffff_ffff) by (nonlinear_arith)
                requires
                    0 <= w <= 0xffff_ffff && 0 <= h <= 0xffff_ffff,
            ;
        }
        let area = (self.width as u64) * (self.height as u64);
        let fits = area <= (usize::MAX as u64) / 3;
        proof {
            let w = self.width as int;
            let h = self.height as int;
            let m = usize::MAX as int;
            assert(area == w * h);
            assert(w * h <= m / 3 <==> 3 * (w * h) <= m) by (nonlinear_arith)
                requires
                    w >= 0 && h >= 0 && m >= 3,
            ;
            assert(3 * (w * h) == 3 * w * h) by (nonlinear_arith);
        }
        fits
    }
}

/// A usable configuration has at least one whole macropixel in each
/// direction, so its frames are at least one pixel tall, and one pixel row
/// alone (three channels wide) already fits in `usize`.
pub(crate) proof fn lemma_wf_frame_bounds(cfg: CodecConfig)
    requires
        cfg.wf(),
    ensures
        cfg.width as int >= 1,
        cfg.height as int >= 1,
        3 * (cfg.width as int) <= usize::MAX as int,
{
    let w = cfg.width as int;
    let h = cfg.height as int;
    let s = cfg.macro_size as int;
    vstd::arithmetic::div_mod::lemma_fundamental_div_mod(w, s);
    vstd::arithmetic::div_mod::lemma_mod_bound(w, s);
    vstd::arithmetic::div_mod::lemma_fundamental_div_mod(h, s);
    vstd::arithmetic::div_mod::lemma_mod_bound(h, s);
    assert(s * (w / s) >= s && s * (h / s) >= s) by (nonlinear_arith)
        requires
            s >= 1 && w / s >= 1 && h / s >= 1,
    ;
    assert(3 * w <= 3 * w * h) by (nonlinear_arith)
        requires
            w >= 0 && h >= 1,
    ;
}

/// The macropixel grid never exceeds the pixel grid: with a usable
/// configuration the cell count is positive and fits in `usize`.
pub proof fn lemma_cells_per_frame_bounds(cfg: CodecConfig)
    requires
        cfg.wf(),
    ensures
        1 <= cfg.cells_per_frame() <= usize::MAX as int,
{
    let w = cfg.width as int;
    let h = cfg.height as int;
    let s = cfg.macro_size as int;
    vstd::arithmetic::div_mod::lemma_div_basics_5(w, s);
    vstd::arithmetic::div_mod::lemma_div_basics_5(h, s);
    assert(cfg.cols() * cfg.rows() >= 1 && cfg.cols() * cfg.rows() <= w * h) by (nonlinear_arith)
        requires
            1 <= cfg.cols() <= w && 1 <= cfg.rows() <= h,
    ;
    assert(w * h <= 3 * w * h) by (nonlinear_arith)
        requires
            w >= 0 && h >= 0,
    ;
    assert(3 * w * h == 3 * (w * h)) by (nonlinear_arith);
}

} // verus!
