//! The two ends of the codec — encode a payload into frames, decode frames
//! back into the payload — and the laws that tie them together.

use vstd::prelude::*;
use vstd::arithmetic::div_mod::{
    lemma_div_basics, lemma_div_basics_4, lemma_div_is_ordered, lemma_fundamental_div_mod,
    lemma_fundamental_div_mod_converse, lemma_mod_bound,
};
use crate::bits::{build_bitstream, framed_bits, lemma_reassemble_framed, reassemble, reassemble_spec};
use crate::config::{lemma_cells_per_frame_bounds, CodecConfig, CodecError};
use crate::frames::{frame_height, frame_pixels, frame_width, Frame};
use crate::raster::{
    encodes_frame, enc_level, lemma_cell_in_frame, lemma_num_frames_value, num_frames, rasterize,
};
use crate::sample::{collect_and_sample, collected_bits, dims_ok, sampled_bit};

verus! {

/// Encodes a payload into its frame sequence: the framed bitstream (32-bit
/// big-endian length header, then the payload bytes MSB-first) rasterized
/// into `ceil(bits / cells_per_frame)` frames — always at least one, since
/// the header alone is 32 bits. Fails with `Config` exactly when the
/// configuration is unusable, and with `Precondition` exactly when the
/// payload length does not fit the header.
pub fn encode_payload(payload: &Vec<u8>, cfg: &CodecConfig) -> (r: Result<Vec<Frame>, CodecError>)
    ensures
        match r {
            Ok(frames) => {
                &&& cfg.wf()
                &&& payload@.len() < 0x1_0000_0000
                &&& frames@.len() == num_frames(framed_bits(payload@).len() as int, *cfg)
                &&& frames@.len() >= 1
                &&& forall|f: int|
                    0 <= f < frames@.len() ==> #[trigger] encodes_frame(
                        frames@[f],
                        framed_bits(payload@),
                        *cfg,
                        f,
                    )
            },
            Err(e) => {
                ||| (e == CodecError::Config && !cfg.wf())
                ||| (e == CodecError::Precondition && cfg.wf() && payload@.len() >= 0x1_0000_0000)
            },
        },
{
    if !cfg.validate() {
        return Err(CodecError::Config);
    }
    let bits = match build_bitstream(payload) {
        Ok(bits) => bits,
        Err(e) => {
            return Err(e);
        },
    };
    let frames = match rasterize(&bits, cfg) {
        Ok(frames) => frames,
        Err(e) => {
            return Err(e);
        },
    };
    proof {
        let t = framed_bits(payload@).len() as int;
        let c = cfg.cells_per_frame();
        lemma_cells_per_frame_bounds(*cfg);
        lemma_div_is_ordered(c, t + c - 1, c);
        lemma_div_basics(c);
    }
    Ok(frames)
}

/// Decodes an ordered frame sequence back into the payload it encodes: every
/// frame's dimensions are validated, every macropixel cell is sampled in
/// order, and the bitstream is reassembled under its length header. Each
/// failure names its cause: an unusable configuration, the first frame of
/// wrong dimensions, or a stream shorter than its header demands.
pub fn decode_frames(frames: &Vec<Frame>, cfg: &CodecConfig) -> (r: Result<Vec<u8>, CodecError>)
    ensures
        match r {
            Ok(payload) => {
                &&& cfg.wf()
                &&& forall|i: int| 0 <= i < frames@.len() ==> dims_ok(#[trigger] frames@[i], *cfg)
                &&& reassemble_spec(collected_bits(frames@, *cfg)) == Some(payload@)
            },
            Err(e) => {
                ||| (e == CodecError::Config && !cfg.wf())
                ||| {
                    &&& e matches CodecError::Format { frame, width, height }
                    &&& cfg.wf()
                    &&& 0 <= (frame as int) < frames@.len()
                    &&& !dims_ok(frames@[frame as int], *cfg)
                    &&& width as int == frame_width(frames@[frame as int])
                    &&& height as int == frame_height(frames@[frame as int])
                    &&& forall|i: int|
                        0 <= i < frame as int ==> dims_ok(#[trigger] frames@[i], *cfg)
                }
                ||| {
                    &&& e == CodecError::TruncatedStream
                    &&& cfg.wf()
                    &&& forall|i: int|
                        0 <= i < frames@.len() ==> dims_ok(#[trigger] frames@[i], *cfg)
                    &&& reassemble_spec(collected_bits(frames@, *cfg)) is None
                }
            },
        },
{
    if !cfg.validate() {
        return Err(CodecError::Config);
    }
    let bits = match collect_and_sample(frames, cfg) {
        Ok(bits) => bits,
        Err(e) => {
            return Err(e);
        },
    };
    reassemble(&bits)
}

/// Division of a position below `m * d` by the chunk size `d` lands in chunk
/// `i / d` of the `m` chunks, at offset `i % d`.
proof fn lemma_div_below(i: int, m: int, d: int)
    requires
        0 <= i < m * d,
        d >= 1,
    ensures
        0 <= i / d < m,
        0 <= i % d < d,
        i == d * (i / d) + i % d,
{
    lemma_fundamental_div_mod(i, d);
    lemma_mod_bound(i, d);
    lemma_div_basics_4(i, d);
    if i / d >= m {
        assert(d * (i / d) >= d * m) by (nonlinear_arith)
            requires
                i / d >= m && d >= 1,
        ;
        assert(d * m == m * d) by (nonlinear_arith);
    }
}

/// Round-trip law: a frame sequence that rasterizes the framed bits of a
/// payload — as `encode_payload` promises of its output — decodes back to
/// exactly that payload, whatever the underfull last frame's trailing cells
/// sample to.
pub proof fn lemma_round_trip(p: Seq<u8>, cfg: CodecConfig, frames: Seq<Frame>)
    requires
        cfg.wf(),
        p.len() < 0x1_0000_0000,
        frames.len() == num_frames(framed_bits(p).len() as int, cfg),
        forall|f: int|
            0 <= f < frames.len() ==> #[trigger] encodes_frame(frames[f], framed_bits(p), cfg, f),
    ensures
        reassemble_spec(collected_bits(frames, cfg)) == Some(p),
{
    let bits = framed_bits(p);
    let t = bits.len() as int;
    let cpf = cfg.cells_per_frame();
    let nf = frames.len() as int;
    let col = collected_bits(frames, cfg);
    lemma_cells_per_frame_bounds(cfg);
    // the frames cover every bit: nf * cpf >= t
    lemma_fundamental_div_mod(t + cpf - 1, cpf);
    lemma_mod_bound(t + cpf - 1, cpf);
    assert(cpf * nf == nf * cpf) by (nonlinear_arith);
    assert(col.len() == nf * cpf);
    assert(nf * cpf >= t);
    // every collected bit below t is the rasterized bit; the rest is padding
    assert forall|i: int| 0 <= i < nf * cpf implies col[i] == (i < t && bits[i]) by {
        lemma_div_below(i, nf, cpf);
        let f = i / cpf;
        let j = i % cpf;
        let s = cfg.macro_size as int;
        let c = cfg.cols();
        lemma_div_below(j, cfg.rows(), c);
        let jrow = j / c;
        let jcol = j % c;
        assert(cfg.rows() * c == c * cfg.rows()) by (nonlinear_arith);
        lemma_cell_in_frame(cfg, jcol, jrow);
        let x = jcol * s;
        let y = jrow * s;
        assert(encodes_frame(frames[f], bits, cfg, f));
        assert(frame_pixels(frames[f])[(x, y)] == crate::frames::level_triple(
            enc_level(bits, cfg, f, x, y),
        ));
        lemma_fundamental_div_mod_converse(x, s, jcol, 0);
        lemma_fundamental_div_mod_converse(y, s, jrow, 0);
        assert(col[i] == sampled_bit(frames[f], cfg, j));
        assert(f * cpf + (jrow * c + jcol) == i);
    }
    let pad = col.subrange(t, col.len() as int);
    assert(col =~= bits + pad);
    lemma_reassemble_framed(p, pad);
}

/// Decoding reads nothing but the frames' pixels: frame sequences equal
/// pixel for pixel decode identically — in particular, decoding one frame
/// sequence twice yields identical output.
pub proof fn lemma_decode_deterministic(a: Seq<Frame>, b: Seq<Frame>, cfg: CodecConfig)
    requires
        cfg.wf(),
        a.len() == b.len(),
        forall|i: int| 0 <= i < a.len() ==> frame_pixels(#[trigger] a[i]) == frame_pixels(b[i]),
    ensures
        reassemble_spec(collected_bits(a, cfg)) == reassemble_spec(collected_bits(b, cfg)),
{
    let cpf = cfg.cells_per_frame();
    lemma_cells_per_frame_bounds(cfg);
    assert forall|i: int| 0 <= i < a.len() * cpf implies collected_bits(a, cfg)[i]
        == collected_bits(b, cfg)[i] by {
        lemma_div_below(i, a.len() as int, cpf);
    }
    assert(collected_bits(a, cfg) =~= collected_bits(b, cfg));
}

/// The empty payload still takes one frame at least: its bitstream is the
/// 32-bit header alone, and a frame never carries zero bits.
pub proof fn lemma_empty_payload_frames(cfg: CodecConfig)
    requires
        cfg.wf(),
    ensures
        framed_bits(Seq::<u8>::empty()).len() == 32,
        num_frames(32, cfg) >= 1,
{
    let c = cfg.cells_per_frame();
    lemma_cells_per_frame_bounds(cfg);
    lemma_div_is_ordered(c, 31 + c, c);
    lemma_div_basics(c);
}

/// A bitstream ending exactly on a frame boundary fills its frames with no
/// underfull frame; a single bit more takes exactly one more frame.
pub proof fn lemma_frame_count_boundary(k: int, cfg: CodecConfig)
    requires
        cfg.wf(),
        k >= 1,
    ensures
        num_frames(k * cfg.cells_per_frame(), cfg) == k,
        num_frames(k * cfg.cells_per_frame() + 1, cfg) == k + 1,
{
    let c = cfg.cells_per_frame();
    lemma_cells_per_frame_bounds(cfg);
    assert((k - 1) * c == k * c - c && (k + 1) * c == k * c + c) by (nonlinear_arith);
    lemma_num_frames_value(k * c, cfg, k);
    lemma_num_frames_value(k * c + 1, cfg, k + 1);
}

} // verus!
