//! Macropixel rasterizer (encode side): consumes a bitstream in frame-sized
//! chunks and paints each bit as one square macropixel cell, pure white for 1
//! and pure black for 0, cells filled row-major within a frame.

use vstd::prelude::*;
use vstd::arithmetic::div_mod::{
    lemma_fundamental_div_mod, lemma_fundamental_div_mod_converse, lemma_mod_bound,
};
use crate::config::{lemma_cells_per_frame_bounds, CodecConfig, CodecError};
use crate::frames::{
    frame_height, frame_pixels, frame_width, level_triple, new_frame, put_frame_pixel, Frame,
};

verus! {

/// The channel level a bit paints: pure white for 1, pure black for 0.
pub open spec fn bit_level(b: bool) -> u8 {
    if b {
        255u8
    } else {
        0u8
    }
}

/// True when pixel (x, y) lies in macropixel cell (col, row).
pub open spec fn in_cell(cfg: CodecConfig, col: int, row: int, x: int, y: int) -> bool {
    let s = cfg.macro_size as int;
    col * s <= x < col * s + s && row * s <= y < row * s + s
}

/// The channel level of pixel (x, y) when the bits from `start` on fill one
/// frame: the level of its cell's bit when the cell lies in the grid and its
/// bit exists; black otherwise (an underfull frame's trailing cells, and
/// border pixels no cell covers, stay black and carry no data).
pub open spec fn enc_level_at(bits: Seq<bool>, cfg: CodecConfig, start: int, x: int, y: int) -> u8 {
    let s = cfg.macro_size as int;
    let col = x / s;
    let row = y / s;
    let cell = row * cfg.cols() + col;
    if col < cfg.cols() && row < cfg.rows() && start + cell < bits.len() {
        bit_level(bits[start + cell])
    } else {
        0u8
    }
}

/// The channel level of pixel (x, y) of frame `f` of a rasterization.
pub open spec fn enc_level(bits: Seq<bool>, cfg: CodecConfig, f: int, x: int, y: int) -> u8 {
    enc_level_at(bits, cfg, f * cfg.cells_per_frame(), x, y)
}

/// Frame `f` of a rasterization of `bits`: it has the configured dimensions,
/// and every in-bounds pixel holds its encoded level in all three channels.
pub open spec fn encodes_frame(fr: Frame, bits: Seq<bool>, cfg: CodecConfig, f: int) -> bool {
    &&& frame_width(fr) == cfg.width as int
    &&& frame_height(fr) == cfg.height as int
    &&& forall|x: int, y: int|
        0 <= x < cfg.width && 0 <= y < cfg.height ==> #[trigger] frame_pixels(fr)[(x, y)]
            == level_triple(enc_level(bits, cfg, f, x, y))
}

/// How many frames a bitstream fills: its length divided by the cell count of
/// one frame, rounded up.
pub open spec fn num_frames(total_bits: int, cfg: CodecConfig) -> int {
    (total_bits + cfg.cells_per_frame() - 1) / cfg.cells_per_frame()
}

/// A cell of the macropixel grid lies inside the frame.
pub(crate) proof fn lemma_cell_in_frame(cfg: CodecConfig, col: int, row: int)
    requires
        cfg.wf(),
        0 <= col < cfg.cols(),
        0 <= row < cfg.rows(),
    ensures
        col * (cfg.macro_size as int) + cfg.macro_size as int <= cfg.width as int,
        row * (cfg.macro_size as int) + cfg.macro_size as int <= cfg.height as int,
        col * (cfg.macro_size as int) >= 0,
        row * (cfg.macro_size as int) >= 0,
{
    let s = cfg.macro_size as int;
    let w = cfg.width as int;
    let h = cfg.height as int;
    lemma_fundamental_div_mod(w, s);
    lemma_mod_bound(w, s);
    lemma_fundamental_div_mod(h, s);
    lemma_mod_bound(h, s);
    assert(col * s + s <= (w / s) * s) by (nonlinear_arith)
        requires
            col < w / s && s >= 1,
    ;
    assert((w / s) * s <= s * (w / s)) by (nonlinear_arith);
    assert(row * s + s <= (h / s) * s) by (nonlinear_arith)
        requires
            row < h / s && s >= 1,
    ;
    assert((h / s) * s <= s * (h / s)) by (nonlinear_arith);
    assert(col * s >= 0 && row * s >= 0) by (nonlinear_arith)
        requires
            col >= 0 && row >= 0 && s >= 1,
    ;
}

/// The row-major index of a grid cell is below the cell count of a frame.
pub(crate) proof fn lemma_cell_index_bound(cfg: CodecConfig, col: int, row: int)
    requires
        cfg.wf(),
        0 <= col < cfg.cols(),
        0 <= row < cfg.rows(),
    ensures
        0 <= row * cfg.cols() + col < cfg.cells_per_frame(),
{
    let c = cfg.cols();
    let r = cfg.rows();
    assert(0 <= row * c + col < r * c && r * c == c * r) by (nonlinear_arith)
        requires
            0 <= col < c && 0 <= row < r,
    ;
}

/// A pixel lies in the cell its coordinates divide to, and in no other.
pub(crate) proof fn lemma_pixel_cell(cfg: CodecConfig, x: int, y: int)
    requires
        cfg.wf(),
        x >= 0,
        y >= 0,
    ensures
        in_cell(cfg, x / (cfg.macro_size as int), y / (cfg.macro_size as int), x, y),
        forall|col: int, row: int|
            in_cell(cfg, col, row, x, y) ==> col == x / (cfg.macro_size as int) && row == y / (
            cfg.macro_size as int),
{
    let s = cfg.macro_size as int;
    lemma_fundamental_div_mod(x, s);
    lemma_mod_bound(x, s);
    lemma_fundamental_div_mod(y, s);
    lemma_mod_bound(y, s);
    assert(s * (x / s) == (x / s) * s && s * (y / s) == (y / s) * s) by (nonlinear_arith);
    assert forall|col: int, row: int| in_cell(cfg, col, row, x, y) implies col == x / s && row == y
        / s by {
        lemma_fundamental_div_mod_converse(x, s, col, x - col * s);
        lemma_fundamental_div_mod_converse(y, s, row, y - row * s);
    }
}

/// The covered part of cell (col, row) after `dy` full pixel rows and `dx`
/// further pixels of the next row are painted.
spec fn cell_prefix(cfg: CodecConfig, col: int, row: int, dy: int, dx: int, x: int, y: int) -> bool {
    let s = cfg.macro_size as int;
    &&& in_cell(cfg, col, row, x, y)
    &&& (y - row * s < dy || (y - row * s == dy && x - col * s < dx))
}

/// Paints every pixel of macropixel cell (col, row) with `level`.
fn fill_cell(fr: &mut Frame, cfg: &CodecConfig, col: u32, row: u32, level: u8)
    requires
        cfg.wf(),
        frame_width(*old(fr)) == cfg.width as int,
        frame_height(*old(fr)) == cfg.height as int,
        (col as int) < cfg.cols(),
        (row as int) < cfg.rows(),
    ensures
        frame_width(*final(fr)) == cfg.width as int,
        frame_height(*final(fr)) == cfg.height as int,
        forall|x: int, y: int|
            #[trigger] frame_pixels(*final(fr))[(x, y)] == if in_cell(
                *cfg,
                col as int,
                row as int,
                x,
                y,
            ) {
                level_triple(level)
            } else {
                frame_pixels(*old(fr))[(x, y)]
            },
{
    proof {
        lemma_cell_in_frame(*cfg, col as int, row as int);
    }
    let s = cfg.macro_size;
    let x0: u32 = col * s;
    let y0: u32 = row * s;
    let ghost orig = *fr;
    let mut dy: u32 = 0;
    while dy < s
        invariant
            cfg.wf(),
            dy <= s,
            s == cfg.macro_size,
            x0 as int == (col as int) * (s as int),
            y0 as int == (row as int) * (s as int),
            x0 as int + s as int <= cfg.width as int,
            y0 as int + s as int <= cfg.height as int,
            frame_width(*fr) == cfg.width as int,
            frame_height(*fr) == cfg.height as int,
            forall|x: int, y: int|
                #[trigger] frame_pixels(*fr)[(x, y)] == if cell_prefix(
                    *cfg,
                    col as int,
                    row as int,
                    dy as int,
                    0,
                    x,
                    y,
                ) {
                    level_triple(level)
                } else {
                    frame_pixels(orig)[(x, y)]
                },
        decreases s - dy,
    {
        let mut dx: u32 = 0;
        while dx < s
            invariant
                cfg.wf(),
                dy < s,
                dx <= s,
                s == cfg.macro_size,
                x0 as int == (col as int) * (s as int),
                y0 as int == (row as int) * (s as int),
                x0 as int + s as int <= cfg.width as int,
                y0 as int + s as int <= cfg.height as int,
                frame_width(*fr) == cfg.width as int,
                frame_height(*fr) == cfg.height as int,
                forall|x: int, y: int|
                    #[trigger] frame_pixels(*fr)[(x, y)] == if cell_prefix(
                        *cfg,
                        col as int,
                        row as int,
                        dy as int,
                        dx as int,
                        x,
                        y,
                    ) {
                        level_triple(level)
                    } else {
                        frame_pixels(orig)[(x, y)]
                    },
            decreases s - dx,
        {
            put_frame_pixel(fr, x0 + dx, y0 + dy, level);
            dx = dx + 1;
        }
        dy = dy + 1;
    }
}

/// The level of pixel (x, y) after the first `k` cells of the frame starting
/// at bit `start`, in row-major order, are painted.
spec fn enc_level_partial(
    bits: Seq<bool>,
    cfg: CodecConfig,
    start: int,
    k: int,
    x: int,
    y: int,
) -> u8 {
    let s = cfg.macro_size as int;
    let col = x / s;
    let row = y / s;
    let cell = row * cfg.cols() + col;
    if col < cfg.cols() && row < cfg.rows() && cell < k && start + cell < bits.len() && bits[start
        + cell] {
        255u8
    } else {
        0u8
    }
}

/// Rasterizes one frame's worth of bits, beginning at bit `start`.
fn rasterize_frame(bits: &Vec<bool>, start: usize, cfg: &CodecConfig) -> (fr: Frame)
    requires
        cfg.wf(),
        start <= bits@.len(),
    ensures
        frame_width(fr) == cfg.width as int,
        frame_height(fr) == cfg.height as int,
        forall|x: int, y: int|
            0 <= x < cfg.width && 0 <= y < cfg.height ==> #[trigger] frame_pixels(fr)[(x, y)]
                == level_triple(enc_level_at(bits@, *cfg, start as int, x, y)),
{
    proof {
        crate::config::lemma_wf_frame_bounds(*cfg);
    }
    let mut fr = new_frame(cfg.width, cfg.height);
    let s = cfg.macro_size;
    let cols = cfg.width / s;
    let rows = cfg.height / s;
    let total: usize = bits.len();
    let mut row: u32 = 0;
    while row < rows
        invariant
            cfg.wf(),
            s == cfg.macro_size,
            cols as int == cfg.cols(),
            rows as int == cfg.rows(),
            row <= rows,
            total == bits@.len(),
            start <= total,
            frame_width(fr) == cfg.width as int,
            frame_height(fr) == cfg.height as int,
            forall|x: int, y: int|
                0 <= x < cfg.width && 0 <= y < cfg.height ==> #[trigger] frame_pixels(fr)[(x, y)]
                    == level_triple(
                    enc_level_partial(
                        bits@,
                        *cfg,
                        start as int,
                        (row as int) * cfg.cols(),
                        x,
                        y,
                    ),
                ),
        decreases rows - row,
    {
        let mut col: u32 = 0;
        while col < cols
            invariant
                cfg.wf(),
                s == cfg.macro_size,
                cols as int == cfg.cols(),
                rows as int == cfg.rows(),
                row < rows,
                col <= cols,
                total == bits@.len(),
                start <= total,
                frame_width(fr) == cfg.width as int,
                frame_height(fr) == cfg.height as int,
                forall|x: int, y: int|
                    0 <= x < cfg.width && 0 <= y < cfg.height ==> #[trigger] frame_pixels(fr)[(
                    x,
                    y,
                    )] == level_triple(
                        enc_level_partial(
                            bits@,
                            *cfg,
                            start as int,
                            (row as int) * cfg.cols() + col as int,
                            x,
                            y,
                        ),
                    ),
            decreases cols - col,
        {
            proof {
                lemma_cell_index_bound(*cfg, col as int, row as int);
                lemma_cells_per_frame_bounds(*cfg);
            }
            let cell: usize = (row as usize) * (cols as usize) + (col as usize);
            let ghost k = (row as int) * cfg.cols() + col as int;
            let ghost before = frame_pixels(fr);
            if cell < total - start {
                let level: u8 = if bits[start + cell] {
                    255
                } else {
                    0
                };
                fill_cell(&mut fr, cfg, col, row, level);
            }
            proof {
                let s_i = s as int;
                assert forall|x: int, y: int| 0 <= x < cfg.width && 0 <= y < cfg.height implies #[trigger] frame_pixels(
                    fr,
                )[(x, y)] == level_triple(
                    enc_level_partial(bits@, *cfg, start as int, k + 1, x, y),
                ) by {
                    lemma_pixel_cell(*cfg, x, y);
                    let pcol = x / s_i;
                    let prow = y / s_i;
                    if in_cell(*cfg, col as int, row as int, x, y) {
                        assert(pcol == col as int && prow == row as int);
                        assert(x / s_i < cfg.cols() && y / s_i < cfg.rows()) by {
                            lemma_cell_in_frame(*cfg, col as int, row as int);
                        }
                    } else {
                        assert(frame_pixels(fr)[(x, y)] == before[(x, y)]);
                        if pcol < cfg.cols() && prow < cfg.rows() && prow * cfg.cols() + pcol
                            == k {
                            assert(pcol == col as int && prow == row as int) by {
                                lemma_cell_index_unique(*cfg, pcol, prow, col as int, row as int);
                            }
                            assert(false);
                        }
                    }
                }
            }
            col = col + 1;
        }
        proof {
            assert((row as int + 1) * cfg.cols() == (row as int) * cfg.cols() + cfg.cols())
                by (nonlinear_arith);
        }
        row = row + 1;
    }
    proof {
        assert forall|x: int, y: int| 0 <= x < cfg.width && 0 <= y < cfg.height implies #[trigger] frame_pixels(
            fr,
        )[(x, y)] == level_triple(enc_level_at(bits@, *cfg, start as int, x, y)) by {
            let s_i = cfg.macro_size as int;
            let pcol = x / s_i;
            let prow = y / s_i;
            lemma_pixel_cell(*cfg, x, y);
            if pcol < cfg.cols() && prow < cfg.rows() {
                lemma_cell_index_bound(*cfg, pcol, prow);
                assert(cfg.cells_per_frame() == cfg.rows() * cfg.cols()) by (nonlinear_arith);
            }
        }
    }
    fr
}

/// Two grid cells with the same row-major index are the same cell.
pub(crate) proof fn lemma_cell_index_unique(cfg: CodecConfig, c1: int, r1: int, c2: int, r2: int)
    requires
        cfg.wf(),
        0 <= c1 < cfg.cols(),
        0 <= r1 < cfg.rows(),
        0 <= c2 < cfg.cols(),
        0 <= r2 < cfg.rows(),
        r1 * cfg.cols() + c1 == r2 * cfg.cols() + c2,
    ensures
        c1 == c2,
        r1 == r2,
{
    let c = cfg.cols();
    lemma_fundamental_div_mod_converse(r1 * c + c1, c, r1, c1);
    lemma_fundamental_div_mod_converse(r2 * c + c2, c, r2, c2);
}

/// Rasterizes a bitstream into the exact sequence of frames that carries it:
/// frame `f` holds bits `f * cells_per_frame ..`, one bit per macropixel
/// cell in row-major order, the last frame underfull when the bits run out.
/// Fails with `Config` exactly when the configuration is unusable.
pub fn rasterize(bits: &Vec<bool>, cfg: &CodecConfig) -> (r: Result<Vec<Frame>, CodecError>)
    ensures
        match r {
            Ok(frames) => {
                &&& cfg.wf()
                &&& frames@.len() == num_frames(bits@.len() as int, *cfg)
                &&& forall|f: int|
                    0 <= f < frames@.len() ==> #[trigger] encodes_frame(
                        frames@[f],
                        bits@,
                        *cfg,
                        f,
                    )
            },
            Err(e) => e == CodecError::Config && !cfg.wf(),
        },
{
    if !cfg.validate() {
        return Err(CodecError::Config);
    }
    proof {
        lemma_cells_per_frame_bounds(*cfg);
    }
    let cols = cfg.width / cfg.macro_size;
    let rows = cfg.height / cfg.macro_size;
    let cpf: usize = (cols as usize) * (rows as usize);
    let total: usize = bits.len();
    let mut frames: Vec<Frame> = Vec::new();
    let mut start: usize = 0;
    proof {
        assert(frames@.len() * (cpf as int) == 0);
    }
    while start < total
        invariant
            cfg.wf(),
            1 <= cpf,
            cpf == cfg.cells_per_frame(),
            total == bits@.len(),
            start <= total,
            start == frames@.len() * (cpf as int) || (start == total && frames@.len() == num_frames(
                total as int,
                *cfg,
            )),
            forall|f: int|
                0 <= f < frames@.len() ==> #[trigger] encodes_frame(frames@[f], bits@, *cfg, f),
        decreases total - start,
    {
        let ghost f = frames@.len() as int;
        let fr = rasterize_frame(bits, start, cfg);
        proof {
            assert(start as int == f * cfg.cells_per_frame());
        }
        frames.push(fr);
        if total - start <= cpf {
            proof {
                assert((f + 1) * (cpf as int) == f * (cpf as int) + cpf) by (nonlinear_arith);
                lemma_num_frames_value(total as int, *cfg, f + 1);
            }
            start = total;
        } else {
            proof {
                assert((f + 1) * (cpf as int) == f * (cpf as int) + cpf) by (nonlinear_arith);
            }
            start = start + cpf;
        }
    }
    proof {
        if start == frames@.len() * (cpf as int) {
            let f = frames@.len() as int;
            assert((f - 1) * (cpf as int) == f * (cpf as int) - cpf) by (nonlinear_arith);
            lemma_num_frames_value(total as int, *cfg, f);
        }
    }
    Ok(frames)
}

/// Within a rasterized frame, all pixels of one macropixel cell carry one
/// color: the encoded level depends only on which cell a pixel divides to.
pub proof fn lemma_cell_uniform(
    fr: Frame,
    bits: Seq<bool>,
    cfg: CodecConfig,
    f: int,
    x1: int,
    y1: int,
    x2: int,
    y2: int,
)
    requires
        cfg.wf(),
        encodes_frame(fr, bits, cfg, f),
        0 <= x1 < cfg.width,
        0 <= y1 < cfg.height,
        0 <= x2 < cfg.width,
        0 <= y2 < cfg.height,
        x1 / (cfg.macro_size as int) == x2 / (cfg.macro_size as int),
        y1 / (cfg.macro_size as int) == y2 / (cfg.macro_size as int),
    ensures
        frame_pixels(fr)[(x1, y1)] == frame_pixels(fr)[(x2, y2)],
{
    assert(frame_pixels(fr)[(x1, y1)] == level_triple(enc_level(bits, cfg, f, x1, y1)));
    assert(frame_pixels(fr)[(x2, y2)] == level_triple(enc_level(bits, cfg, f, x2, y2)));
}

/// The frame count that rounding up to whole frames gives: `f` frames cover
/// `total` bits exactly when the bits outgrow `f - 1` frames but not `f`.
pub(crate) proof fn lemma_num_frames_value(total: int, cfg: CodecConfig, f: int)
    requires
        cfg.wf(),
        f >= 0,
        (f - 1) * cfg.cells_per_frame() < total,
        total <= f * cfg.cells_per_frame(),
    ensures
        num_frames(total, cfg) == f,
{
    let c = cfg.cells_per_frame();
    assert((f - 1) * c == f * c - c) by (nonlinear_arith);
    lemma_fundamental_div_mod_converse(total + c - 1, c, f, total + c - 1 - f * c);
}

} // verus!
