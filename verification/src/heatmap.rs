//! Center-point heatmap decoder.
//!
//! The network emits, for a fixed model input size, a per-class logit
//! heatmap together with center-offset and size regressions at the
//! same spatial resolution.  For every cell the decoder finds the
//! strongest class, compares its logit against the score threshold
//! carried into log-odds space (one logit per decode instead of one
//! sigmoid per cell and class), and turns the qualifying cells into
//! candidate boxes in original-image pixels.

use vstd::prelude::*;

verus! {

use crate::fp::{FP_ONE, imax, div_trunc, scale_div, lemma_div_trunc_bound};
use crate::numeric::{sigmoid_fp_spec, sigmoid_fp, logit_fp_spec, logit_fp};
use crate::bbox::{BoundingBox, COORD_LIMIT};
use crate::error::DecodeError;
use crate::nms::all_valid;

/// Largest magnitude accepted in a regression tensor; keeps every
/// scaled coordinate inside the box coordinate range.
pub const TENSOR_VAL_LIMIT: i64 = 0x100_0000_0000;

/// Largest image or model dimension the scaling arithmetic accepts.
pub const DIM_LIMIT: i64 = 0x10000;

/// Static description of a heatmap model head: spatial grid, the
/// downsampling factor back to model input pixels, and the score
/// threshold (a fixed-point probability).
pub struct HeatmapConfig {
    pub num_classes: usize,
    pub hm_w: usize,
    pub hm_h: usize,
    pub scale: i64,
    pub model_w: i64,
    pub model_h: i64,
    pub score_threshold: i64,
}

impl HeatmapConfig {
    /// Grid and class counts stay small enough for exact index and
    /// coordinate arithmetic, and the model input size is the grid
    /// size scaled back up.
    pub open spec fn valid(self) -> bool {
        &&& 1 <= self.num_classes <= 0x1000
        &&& 1 <= self.hm_w <= 0x1000
        &&& 1 <= self.hm_h <= 0x1000
        &&& 1 <= self.scale <= 0x100
        &&& self.model_w == self.hm_w * self.scale
        &&& self.model_h == self.hm_h * self.scale
        &&& 1 <= self.model_w <= 0x10_0000
        &&& 1 <= self.model_h <= 0x10_0000
    }
}

/// Number of spatial cells in the heatmap.
pub open spec fn hm_n_cells(cfg: HeatmapConfig) -> int {
    cfg.hm_w * cfg.hm_h
}

/// The three tensors have exactly the lengths the configuration
/// promises: `C` channels of cells, and two channels each of offsets
/// and sizes.
pub open spec fn heatmap_shape_ok(
    cfg: HeatmapConfig,
    hm: Seq<i64>,
    xy: Seq<i64>,
    wh: Seq<i64>,
) -> bool {
    &&& hm.len() == cfg.num_classes * hm_n_cells(cfg)
    &&& xy.len() == 2 * hm_n_cells(cfg)
    &&& wh.len() == 2 * hm_n_cells(cfg)
}

/// Regression values stay inside the magnitude the coordinate
/// arithmetic supports.  The logit heatmap itself needs no bound.
pub open spec fn heatmap_inputs_ok(xy: Seq<i64>, wh: Seq<i64>) -> bool {
    &&& forall|i: int| 0 <= i < xy.len() ==> -TENSOR_VAL_LIMIT <= #[trigger] xy[i] <= TENSOR_VAL_LIMIT
    &&& forall|i: int| 0 <= i < wh.len() ==> -TENSOR_VAL_LIMIT <= #[trigger] wh[i] <= TENSOR_VAL_LIMIT
}

/// Scan the first `c` class channels of one cell: the winning class
/// (first one in case of ties) and its logit.  With no channel
/// scanned, the sentinel class -1 with the smallest logit.
pub open spec fn hm_argmax(hm: Seq<i64>, n_cells: int, cell: int, c: nat) -> (int, int)
    decreases c,
{
    if c == 0 {
        (-1int, i64::MIN as int)
    } else {
        let prev = hm_argmax(hm, n_cells, cell, (c - 1) as nat);
        let v = hm[cell + n_cells * (c - 1)] as int;
        if v > prev.1 {
            ((c - 1) as int, v)
        } else {
            prev
        }
    }
}

/// The winning class stays inside the scanned range, and the sentinel
/// only survives while its logit does.
proof fn lemma_hm_argmax_range(hm: Seq<i64>, n_cells: int, cell: int, c: nat)
    ensures
        -1 <= hm_argmax(hm, n_cells, cell, c).0 < c,
        i64::MIN <= hm_argmax(hm, n_cells, cell, c).1 <= i64::MAX,
    decreases c,
{
    if c > 0 {
        lemma_hm_argmax_range(hm, n_cells, cell, (c - 1) as nat);
    }
}

/// The candidate box one qualifying cell produces: center is the cell
/// coordinate plus the regressed offset, the extents come from the
/// size regression (clamped to zero below), and everything is scaled
/// by the downsampling factor and by the original-to-model ratio,
/// truncated to whole pixels at the end.
pub open spec fn hm_box(
    cfg: HeatmapConfig,
    labels: Seq<String>,
    xy: Seq<i64>,
    wh: Seq<i64>,
    ow: int,
    oh: int,
    cell: int,
    cls: int,
    lg: int,
) -> BoundingBox {
    let n = hm_n_cells(cfg);
    let hx = cell % (cfg.hm_w as int);
    let hy = cell / (cfg.hm_w as int);
    let sw = imax(wh[cell] as int, 0);
    let sh = imax(wh[cell + n] as int, 0);
    let cx2 = 2 * (hx * FP_ONE + xy[cell]);
    let cy2 = 2 * (hy * FP_ONE + xy[cell + n]);
    BoundingBox {
        class_id: cls as i32,
        label: labels[cls],
        score: sigmoid_fp_spec(lg) as i64,
        x: div_trunc((cx2 - sw) * cfg.scale * ow, 2 * cfg.model_w * FP_ONE) as i64,
        y: div_trunc((cy2 - sh) * cfg.scale * oh, 2 * cfg.model_h * FP_ONE) as i64,
        w: div_trunc(sw * cfg.scale * ow, cfg.model_w * FP_ONE) as i64,
        h: div_trunc(sh * cfg.scale * oh, cfg.model_h * FP_ONE) as i64,
    }
}

/// Candidates from cell `cell` onward, in row-major cell order, one
/// box at most per cell: the strongest class qualifies when its logit
/// strictly exceeds the threshold logit.
pub open spec fn hm_cells(
    cfg: HeatmapConfig,
    labels: Seq<String>,
    hm: Seq<i64>,
    xy: Seq<i64>,
    wh: Seq<i64>,
    ow: int,
    oh: int,
    cell: int,
) -> Seq<BoundingBox>
    decreases hm_n_cells(cfg) - cell,
{
    if cell < 0 || cell >= hm_n_cells(cfg) {
        Seq::empty()
    } else {
        let am = hm_argmax(hm, hm_n_cells(cfg), cell, cfg.num_classes as nat);
        let rest = hm_cells(cfg, labels, hm, xy, wh, ow, oh, cell + 1);
        if am.1 > logit_fp_spec(cfg.score_threshold as int) && am.0 >= 0 {
            seq![hm_box(cfg, labels, xy, wh, ow, oh, cell, am.0, am.1)] + rest
        } else {
            rest
        }
    }
}

/// Everything the heatmap decoder returns, walking every cell.
pub open spec fn heatmap_decode_spec(
    cfg: HeatmapConfig,
    labels: Seq<String>,
    hm: Seq<i64>,
    xy: Seq<i64>,
    wh: Seq<i64>,
    ow: int,
    oh: int,
) -> Seq<BoundingBox> {
    hm_cells(cfg, labels, hm, xy, wh, ow, oh, 0)
}

/// Decode a class-logit heatmap with its offset and size regressions
/// into candidate boxes in original-image pixel coordinates.  Tensor
/// lengths are checked against the configured shape first; a mismatch
/// is refused rather than read out of bounds.
#[verifier::loop_isolation(false)]
pub fn decode_heatmap(
    cfg: &HeatmapConfig,
    labels: &Vec<String>,
    hm: &Vec<i64>,
    reg_xy: &Vec<i64>,
    reg_wh: &Vec<i64>,
    orig_w: i64,
    orig_h: i64,
) -> (r: Result<Vec<BoundingBox>, DecodeError>)
    requires
        cfg.valid(),
        labels@.len() == cfg.num_classes,
        heatmap_inputs_ok(reg_xy@, reg_wh@),
        1 <= orig_w <= DIM_LIMIT,
        1 <= orig_h <= DIM_LIMIT,
    ensures
        r is Ok <==> heatmap_shape_ok(*cfg, hm@, reg_xy@, reg_wh@),
        heatmap_shape_ok(*cfg, hm@, reg_xy@, reg_wh@) ==> (r matches Ok(v) && v@
            == heatmap_decode_spec(
            *cfg,
            labels@,
            hm@,
            reg_xy@,
            reg_wh@,
            orig_w as int,
            orig_h as int,
        ) && all_valid(v@)),
        !heatmap_shape_ok(*cfg, hm@, reg_xy@, reg_wh@) ==> r === Err(DecodeError::ShapeMismatch),
{
    let c = cfg.num_classes;
    let hw = cfg.hm_w;
    let hh = cfg.hm_h;
    proof {
        assert((hw as int) * (hh as int) <= 0x100_0000) by (nonlinear_arith)
            requires
                1 <= hw <= 0x1000,
                1 <= hh <= 0x1000,
        ;
        assert(0 <= (hw as int) * (hh as int)) by (nonlinear_arith)
            requires
                1 <= hw,
                1 <= hh,
        ;
    }
    let n_cells_u: u64 = (hw as u64) * (hh as u64);
    proof {
        assert((c as int) * (n_cells_u as int) <= 0x1000 * 0x100_0000) by (nonlinear_arith)
            requires
                1 <= c <= 0x1000,
                0 <= n_cells_u <= 0x100_0000,
        ;
        assert(0 <= (c as int) * (n_cells_u as int)) by (nonlinear_arith)
            requires
                1 <= c,
                0 <= n_cells_u,
        ;
    }
    let expected_hm: u64 = (c as u64) * n_cells_u;
    let expected_reg: u64 = 2 * n_cells_u;
    if (hm.len() as u64) != expected_hm || (reg_xy.len() as u64) != expected_reg || (reg_wh.len()
        as u64) != expected_reg {
        return Err(DecodeError::ShapeMismatch);
    }
    let n_cells: usize = n_cells_u as usize;
    let logit_thr = logit_fp(cfg.score_threshold);
    let ghost gl = labels@;
    let ghost ghm = hm@;
    let ghost gxy = reg_xy@;
    let ghost gwh = reg_wh@;
    let ghost ow = orig_w as int;
    let ghost oh = orig_h as int;
    let mut out: Vec<BoundingBox> = Vec::new();
    proof {
        assert(hm_cells(*cfg, gl, ghm, gxy, gwh, ow, oh, 0) == out@ + hm_cells(
            *cfg,
            gl,
            ghm,
            gxy,
            gwh,
            ow,
            oh,
            0,
        )) by {
            assert(out@ + hm_cells(*cfg, gl, ghm, gxy, gwh, ow, oh, 0) =~= hm_cells(
                *cfg,
                gl,
                ghm,
                gxy,
                gwh,
                ow,
                oh,
                0,
            ));
        }
    }
    let mut cell: usize = 0;
    while cell < n_cells
        invariant
            cell <= n_cells,
            out@.len() <= cell,
            all_valid(out@),
            hm_cells(*cfg, gl, ghm, gxy, gwh, ow, oh, 0) == out@ + hm_cells(
                *cfg,
                gl,
                ghm,
                gxy,
                gwh,
                ow,
                oh,
                cell as int,
            ),
        decreases n_cells - cell,
    {
        let mut max_class: i64 = -1;
        let mut max_logit: i64 = i64::MIN;
        let mut ci: usize = 0;
        while ci < c
            invariant
                ci <= c,
                cell < n_cells,
                (max_class as int, max_logit as int) === hm_argmax(
                    ghm,
                    n_cells as int,
                    cell as int,
                    ci as nat,
                ),
                -1 <= max_class < ci,
            decreases c - ci,
        {
            proof {
                assert(n_cells * ci <= n_cells * (c - 1)) by {
                    vstd::arithmetic::mul::lemma_mul_left_inequality(
                        n_cells as int,
                        ci as int,
                        c - 1,
                    );
                }
                assert(n_cells + n_cells * (c - 1) == n_cells * c) by {
                    vstd::arithmetic::mul::lemma_mul_is_distributive_add(
                        n_cells as int,
                        1,
                        c - 1,
                    );
                    vstd::arithmetic::mul::lemma_mul_basics(n_cells as int);
                }
            }
            let index: usize = cell + n_cells * ci;
            let v = hm[index];
            if v > max_logit {
                max_logit = v;
                max_class = ci as i64;
            }
            ci = ci + 1;
        }
        proof {
            lemma_hm_argmax_range(ghm, n_cells as int, cell as int, c as nat);
        }
        if max_logit > logit_thr && max_class >= 0 {
            let ix: usize = cell;
            let iy: usize = cell + n_cells;
            let off_x = reg_xy[ix];
            let off_y = reg_xy[iy];
            let wv = reg_wh[ix];
            let hv = reg_wh[iy];
            let sw: i64 = if wv < 0 {
                0
            } else {
                wv
            };
            let sh: i64 = if hv < 0 {
                0
            } else {
                hv
            };
            let hx: usize = cell % hw;
            let hy: usize = cell / hw;
            proof {
                assert(hy < hh) by {
                    vstd::arithmetic::div_mod::lemma_multiply_divide_lt(
                        cell as int,
                        hw as int,
                        hh as int,
                    );
                }
            }
            let cx2: i64 = 2 * ((hx as i64) * FP_ONE + off_x);
            let cy2: i64 = 2 * ((hy as i64) * FP_ONE + off_y);
            let den_x: i128 = 2 * (cfg.model_w as i128) * (FP_ONE as i128);
            let den_y: i128 = 2 * (cfg.model_h as i128) * (FP_ONE as i128);
            let den_w: i128 = (cfg.model_w as i128) * (FP_ONE as i128);
            let den_h: i128 = (cfg.model_h as i128) * (FP_ONE as i128);
            proof {
                lemma_hm_num_bound((cx2 - sw) as int, cfg.scale as int, ow, 3_400_000_000_000);
                lemma_hm_num_bound((cy2 - sh) as int, cfg.scale as int, oh, 3_400_000_000_000);
                lemma_hm_num_bound(sw as int, cfg.scale as int, ow, TENSOR_VAL_LIMIT as int);
                lemma_hm_num_bound(sh as int, cfg.scale as int, oh, TENSOR_VAL_LIMIT as int);
            }
            let num_x: i128 = ((cx2 - sw) as i128) * (cfg.scale as i128) * (orig_w as i128);
            let num_y: i128 = ((cy2 - sh) as i128) * (cfg.scale as i128) * (orig_h as i128);
            let num_w: i128 = (sw as i128) * (cfg.scale as i128) * (orig_w as i128);
            let num_h: i128 = (sh as i128) * (cfg.scale as i128) * (orig_h as i128);
            proof {
                lemma_div_trunc_bound(num_x as int, den_x as int, COORD_LIMIT as int);
                lemma_div_trunc_bound(num_y as int, den_y as int, COORD_LIMIT as int);
                lemma_div_trunc_bound(num_w as int, den_w as int, COORD_LIMIT as int);
                lemma_div_trunc_bound(num_h as int, den_h as int, COORD_LIMIT as int);
            }
            let x = scale_div(num_x, den_x);
            let y = scale_div(num_y, den_y);
            let w = scale_div(num_w, den_w);
            let h = scale_div(num_h, den_h);
            let lbl = labels[max_class as usize].clone();
            let score = sigmoid_fp(max_logit);
            let bb = BoundingBox { class_id: max_class as i32, label: lbl, score, x, y, w, h };
            proof {
                assert(bb == hm_box(
                    *cfg,
                    gl,
                    gxy,
                    gwh,
                    ow,
                    oh,
                    cell as int,
                    max_class as int,
                    max_logit as int,
                ));
                assert(bb.valid());
                let pre = out@;
                let full = hm_cells(*cfg, gl, ghm, gxy, gwh, ow, oh, cell as int);
                assert(full == seq![bb] + hm_cells(*cfg, gl, ghm, gxy, gwh, ow, oh, cell + 1));
                assert((pre + seq![bb]) + hm_cells(*cfg, gl, ghm, gxy, gwh, ow, oh, cell + 1)
                    =~= pre + (seq![bb] + hm_cells(*cfg, gl, ghm, gxy, gwh, ow, oh, cell + 1)));
            }
            out.push(bb);
        } else {
            proof {
                assert(hm_cells(*cfg, gl, ghm, gxy, gwh, ow, oh, cell as int) == hm_cells(
                    *cfg,
                    gl,
                    ghm,
                    gxy,
                    gwh,
                    ow,
                    oh,
                    cell + 1,
                ));
            }
        }
        cell = cell + 1;
    }
    proof {
        assert(hm_cells(*cfg, gl, ghm, gxy, gwh, ow, oh, n_cells as int)
            =~= Seq::<BoundingBox>::empty());
        assert(out@ + Seq::<BoundingBox>::empty() =~= out@);
    }
    Ok(out)
}

/// A doubly scaled numerator grows by at most the product of the two
/// scale bounds, stepwise and in full.
proof fn lemma_hm_num_bound(t: int, s: int, d: int, tb: int)
    requires
        0 <= tb,
        -tb <= t <= tb,
        1 <= s <= 0x100,
        1 <= d <= DIM_LIMIT,
    ensures
        -(tb * 0x100) <= t * s <= tb * 0x100,
        -(tb * 0x100_0000) <= t * s * d <= tb * 0x100_0000,
{
    assert(-(tb * 0x100) <= t * s <= tb * 0x100) by (nonlinear_arith)
        requires
            0 <= tb,
            -tb <= t <= tb,
            1 <= s <= 0x100,
    ;
    assert(-(tb * 0x100 * 0x10000) <= t * s * d <= tb * 0x100 * 0x10000) by (nonlinear_arith)
        requires
            0 <= tb,
            -(tb * 0x100) <= t * s <= tb * 0x100,
            1 <= d <= 0x10000,
    ;
    assert(tb * 0x100 * 0x10000 == tb * 0x100_0000) by (nonlinear_arith);
}

} // verus!
