//! Frame collector and macropixel sampler (decode side): every frame's
//! dimensions are validated against the configuration, then one bit is read
//! per macropixel cell from the cell's top-left pixel, row-major per frame,
//! frames in sequence order.

use vstd::prelude::*;
use vstd::arithmetic::div_mod::lemma_fundamental_div_mod_converse;
use crate::config::{lemma_cells_per_frame_bounds, CodecConfig, CodecError};
use crate::frames::{frame_height, frame_pixels, frame_width, Frame, get_frame_level};
use crate::raster::{lemma_cell_in_frame, lemma_cell_index_bound};

verus! {

/// Whether a channel level reads as bit 1. The format's threshold policy is
/// `level > 128`, so that frames that passed through lossy storage still
/// decode; the encoder writes pure white (255) and pure black (0).
pub open spec fn level_bit(l: u8) -> bool {
    l > 128
}

/// A frame has the configured dimensions.
pub open spec fn dims_ok(fr: Frame, cfg: CodecConfig) -> bool {
    frame_width(fr) == cfg.width as int && frame_height(fr) == cfg.height as int
}

/// The bit sampled for cell `j` (row-major) of a frame: the first channel of
/// the cell's top-left pixel, thresholded.
pub open spec fn sampled_bit(fr: Frame, cfg: CodecConfig, j: int) -> bool {
    let s = cfg.macro_size as int;
    let col = j % cfg.cols();
    let row = j / cfg.cols();
    level_bit(frame_pixels(fr)[(col * s, row * s)].0)
}

/// All bits of one frame, in row-major cell order.
pub open spec fn sampled_bits(fr: Frame, cfg: CodecConfig) -> Seq<bool> {
    Seq::new(cfg.cells_per_frame() as nat, |j: int| sampled_bit(fr, cfg, j))
}

/// The bits of a whole frame sequence: every frame's sampled bits,
/// concatenated in sequence order.
pub open spec fn collected_bits(frames: Seq<Frame>, cfg: CodecConfig) -> Seq<bool> {
    Seq::new(
        (frames.len() * cfg.cells_per_frame()) as nat,
        |i: int|
            sampled_bit(
                frames[i / cfg.cells_per_frame()],
                cfg,
                i % cfg.cells_per_frame(),
            ),
    )
}

/// Samples every cell of one frame, row-major.
pub fn sample_frame(fr: &Frame, cfg: &CodecConfig) -> (r: Vec<bool>)
    requires
        cfg.wf(),
        dims_ok(*fr, *cfg),
    ensures
        r@ == sampled_bits(*fr, *cfg),
{
    let s = cfg.macro_size;
    let cols = cfg.width / s;
    let rows = cfg.height / s;
    let mut r: Vec<bool> = Vec::new();
    let mut row: u32 = 0;
    while row < rows
        invariant
            cfg.wf(),
            dims_ok(*fr, *cfg),
            s == cfg.macro_size,
            cols as int == cfg.cols(),
            rows as int == cfg.rows(),
            row <= rows,
            r@.len() == (row as int) * cfg.cols(),
            r@ == sampled_bits(*fr, *cfg).take((row as int) * cfg.cols()),
        decreases rows - row,
    {
        let mut col: u32 = 0;
        while col < cols
            invariant
                cfg.wf(),
                dims_ok(*fr, *cfg),
                s == cfg.macro_size,
                cols as int == cfg.cols(),
                rows as int == cfg.rows(),
                row < rows,
                col <= cols,
                r@.len() == (row as int) * cfg.cols() + col as int,
                r@ == sampled_bits(*fr, *cfg).take((row as int) * cfg.cols() + col as int),
            decreases cols - col,
        {
            proof {
                lemma_cell_in_frame(*cfg, col as int, row as int);
                lemma_cell_index_bound(*cfg, col as int, row as int);
                lemma_cells_per_frame_bounds(*cfg);
            }
            let x: u32 = col * s;
            let y: u32 = row * s;
            let bit = get_frame_level(fr, x, y) > 128;
            proof {
                let j = (row as int) * cfg.cols() + col as int;
                lemma_fundamental_div_mod_converse(j, cfg.cols(), row as int, col as int);
                assert(sampled_bits(*fr, *cfg)[j] == bit);
                assert(sampled_bits(*fr, *cfg).take(j).push(bit) =~= sampled_bits(*fr, *cfg).take(
                    j + 1,
                ));
            }
            r.push(bit);
            col = col + 1;
        }
        proof {
            assert((row as int + 1) * cfg.cols() == (row as int) * cfg.cols() + cfg.cols())
                by (nonlinear_arith);
        }
        row = row + 1;
    }
    proof {
        assert(cfg.cells_per_frame() == cfg.rows() * cfg.cols()) by (nonlinear_arith);
        assert(sampled_bits(*fr, *cfg).take(cfg.cells_per_frame()) =~= sampled_bits(*fr, *cfg));
    }
    r
}

/// Collects an ordered frame sequence into one bitstream: every frame's
/// dimensions are checked against the configuration, then every frame is
/// sampled and the bits concatenated in sequence order. A frame of other
/// dimensions fails the whole decode with `Format`, naming the first
/// offending frame and its actual dimensions; nothing is skipped or padded.
pub fn collect_and_sample(frames: &Vec<Frame>, cfg: &CodecConfig) -> (r: Result<
    Vec<bool>,
    CodecError,
>)
    requires
        cfg.wf(),
    ensures
        match r {
            Ok(bits) => {
                &&& forall|i: int| 0 <= i < frames@.len() ==> dims_ok(#[trigger] frames@[i], *cfg)
                &&& bits@ == collected_bits(frames@, *cfg)
            },
            Err(e) => {
                &&& e matches CodecError::Format { frame, width, height }
                &&& 0 <= (frame as int) < frames@.len()
                &&& !dims_ok(frames@[frame as int], *cfg)
                &&& width as int == frame_width(frames@[frame as int])
                &&& height as int == frame_height(frames@[frame as int])
                &&& forall|i: int| 0 <= i < frame as int ==> dims_ok(#[trigger] frames@[i], *cfg)
            },
        },
{
    let n = frames.len();
    let mut i: usize = 0;
    while i < n
        invariant
            n == frames@.len(),
            i <= n,
            forall|j: int| 0 <= j < i ==> dims_ok(#[trigger] frames@[j], *cfg),
        decreases n - i,
    {
        let fr = &frames[i];
        let w = fr.width();
        let h = fr.height();
        if w != cfg.width || h != cfg.height {
            return Err(CodecError::Format { frame: i, width: w, height: h });
        }
        i = i + 1;
    }
    proof {
        lemma_cells_per_frame_bounds(*cfg);
    }
    let mut bits: Vec<bool> = Vec::new();
    let mut k: usize = 0;
    while k < n
        invariant
            cfg.wf(),
            n == frames@.len(),
            k <= n,
            forall|j: int| 0 <= j < n ==> dims_ok(#[trigger] frames@[j], *cfg),
            bits@.len() == k as int * cfg.cells_per_frame(),
            bits@ == collected_bits(frames@, *cfg).take(k as int * cfg.cells_per_frame()),
        decreases n - k,
    {
        let mut part = sample_frame(&frames[k], cfg);
        proof {
            let cpf = cfg.cells_per_frame();
            let all = collected_bits(frames@, *cfg);
            assert((k as int + 1) * cpf == k as int * cpf + cpf) by (nonlinear_arith);
            assert((n as int) * cpf >= (k as int + 1) * cpf) by (nonlinear_arith)
                requires
                    (k as int) < n as int && cpf >= 0,
            ;
            assert forall|i2: int| k as int * cpf <= i2 < (k as int + 1) * cpf implies all[i2]
                == sampled_bits(frames@[k as int], *cfg)[i2 - k as int * cpf] by {
                lemma_fundamental_div_mod_converse(i2, cpf, k as int, i2 - k as int * cpf);
            }
            assert(all.take(k as int * cpf) + sampled_bits(frames@[k as int], *cfg) =~= all.take(
                (k as int + 1) * cpf,
            ));
        }
        bits.append(&mut part);
        k = k + 1;
    }
    proof {
        assert(collected_bits(frames@, *cfg).take((n as int) * cfg.cells_per_frame())
            =~= collected_bits(frames@, *cfg));
    }
    Ok(bits)
}

} // verus!
