//! Multi-scale anchor-grid decoder.
//!
//! The network emits one flat tensor: for each grid stride, a row of
//! records per grid cell and anchor, each record holding the center
//! and log-space size predictions, a box confidence, and one
//! confidence per class.  The decoder walks the records in storage
//! order with a single running index, gates each record on the cheap
//! box confidence before the class argmax (preserving the two-stage
//! thresholding of the design), and emits qualifying records as boxes
//! in original-image pixels.

use vstd::prelude::*;

verus! {

use crate::fp::{FP_ONE, div_trunc, scale_div, lemma_div_trunc_bound};
use crate::numeric::{exp_fp_spec, exp_fp};
use crate::bbox::{BoundingBox, COORD_LIMIT};
use crate::error::DecodeError;
use crate::nms::all_valid;
use crate::heatmap::{TENSOR_VAL_LIMIT, DIM_LIMIT};

/// Largest magnitude accepted for the log-space size predictions; its
/// exponential then stays inside the coordinate arithmetic.
pub const SIZE_PRED_LIMIT: i64 = 10_000_000;

/// Static description of an anchor-grid model head: the class count,
/// the grid strides from fine to coarse, anchors per grid cell, the
/// model input size, and the two confidence thresholds.
pub struct AnchorGridConfig {
    pub num_classes: usize,
    pub strides: Vec<i64>,
    pub anchors_per_cell: usize,
    pub model_w: i64,
    pub model_h: i64,
    pub box_threshold: i64,
    pub class_threshold: i64,
}

impl AnchorGridConfig {
    /// Counts and strides stay small enough for exact index and
    /// coordinate arithmetic.
    pub open spec fn valid(self) -> bool {
        &&& 1 <= self.num_classes <= 0x1000
        &&& 1 <= self.anchors_per_cell <= 0x10
        &&& self.strides@.len() <= 0x10
        &&& forall|i: int|
            0 <= i < self.strides@.len() ==> 1 <= #[trigger] self.strides@[i] <= 0x400
        &&& 1 <= self.model_w <= 0x10_0000
        &&& 1 <= self.model_h <= 0x10_0000
    }
}

/// Elements per record: the four box numbers, the box confidence, and
/// one confidence per class.
pub open spec fn anchor_el(cfg: AnchorGridConfig) -> int {
    cfg.num_classes + 5
}

/// Grid width at a stride: the model width downsampled (truncating).
pub open spec fn grid_w(cfg: AnchorGridConfig, s: int) -> int {
    cfg.model_w as int / s
}

/// Grid height at a stride.
pub open spec fn grid_h(cfg: AnchorGridConfig, s: int) -> int {
    cfg.model_h as int / s
}

/// Records one stride contributes.
pub open spec fn stride_records(cfg: AnchorGridConfig, s: int) -> int {
    grid_w(cfg, s) * grid_h(cfg, s) * cfg.anchors_per_cell
}

/// Tensor elements one stride contributes.
pub open spec fn stride_block(cfg: AnchorGridConfig, s: int) -> int {
    stride_records(cfg, s) * anchor_el(cfg)
}

/// Tensor elements contributed by the first `k` strides.
pub open spec fn blocks_before(cfg: AnchorGridConfig, k: int) -> int
    decreases k,
{
    if k <= 0 {
        0
    } else {
        blocks_before(cfg, k - 1) + stride_block(cfg, cfg.strides@[k - 1] as int)
    }
}

/// The flat tensor has exactly the length the strides demand.
pub open spec fn anchor_shape_ok(cfg: AnchorGridConfig, data: Seq<i64>) -> bool {
    data.len() == blocks_before(cfg, cfg.strides@.len() as int)
}

/// Value bounds on the flat tensor, by position within each record:
/// center predictions stay within the general tensor limit, size
/// predictions within the exponential's comfortable range, and every
/// confidence is a probability.
pub open spec fn anchor_inputs_ok(cfg: AnchorGridConfig, data: Seq<i64>) -> bool {
    &&& forall|i: int|
        0 <= i < data.len() ==> -TENSOR_VAL_LIMIT <= #[trigger] data[i] <= TENSOR_VAL_LIMIT
    &&& forall|i: int|
        0 <= i < data.len() && (i % anchor_el(cfg) == 2 || i % anchor_el(cfg) == 3)
            ==> -SIZE_PRED_LIMIT <= #[trigger] data[i] <= SIZE_PRED_LIMIT
    &&& forall|i: int|
        0 <= i < data.len() && i % anchor_el(cfg) >= 4 ==> 0 <= #[trigger] data[i] <= FP_ONE
}

/// Scan the first `c` class confidences of one record: the winning
/// class (first on ties) and its confidence, starting from class 0
/// with confidence zero.
pub open spec fn anchor_argmax(data: Seq<i64>, start: int, c: nat) -> (int, int)
    decreases c,
{
    if c == 0 {
        (0int, 0int)
    } else {
        let prev = anchor_argmax(data, start, (c - 1) as nat);
        let v = data[start + (c - 1)] as int;
        if v > prev.1 {
            ((c - 1) as int, v)
        } else {
            prev
        }
    }
}

/// The winner stays among the scanned classes and its confidence is a
/// probability whenever the scanned entries are.
proof fn lemma_anchor_argmax_bounds(data: Seq<i64>, start: int, c: nat)
    requires
        forall|j: int| 0 <= j < c ==> 0 <= #[trigger] data[start + j] <= FP_ONE,
    ensures
        0 <= anchor_argmax(data, start, c).0,
        anchor_argmax(data, start, c).0 < c || anchor_argmax(data, start, c).0 == 0,
        0 <= anchor_argmax(data, start, c).1 <= FP_ONE,
    decreases c,
{
    if c > 0 {
        lemma_anchor_argmax_bounds(data, start, (c - 1) as nat);
        assert(0 <= data[start + (c - 1)] <= FP_ONE);
    }
}

/// The candidate box one qualifying record produces: the grid cell
/// plus the center prediction, scaled by the stride and the
/// original-to-model ratio; extents are the exponential of the size
/// predictions under the same scaling; the corner subtracts half the
/// extent before the single truncation to whole pixels.
pub open spec fn anchor_box(
    cfg: AnchorGridConfig,
    labels: Seq<String>,
    data: Seq<i64>,
    off: int,
    gx: int,
    gy: int,
    s: int,
    ow: int,
    oh: int,
    cls: int,
    conf: int,
) -> BoundingBox {
    let ex_w = exp_fp_spec(data[off + 2] as int);
    let ex_h = exp_fp_spec(data[off + 3] as int);
    BoundingBox {
        class_id: cls as i32,
        label: labels[cls],
        score: conf as i64,
        x: div_trunc(
            (2 * (data[off] + gx * FP_ONE) - ex_w) * s * ow,
            2 * cfg.model_w * FP_ONE,
        ) as i64,
        y: div_trunc(
            (2 * (data[off + 1] + gy * FP_ONE) - ex_h) * s * oh,
            2 * cfg.model_h * FP_ONE,
        ) as i64,
        w: div_trunc(ex_w * s * ow, cfg.model_w * FP_ONE) as i64,
        h: div_trunc(ex_h * s * oh, cfg.model_h * FP_ONE) as i64,
    }
}

/// What record `a` of a stride contributes: nothing unless the box
/// confidence meets its threshold, and then nothing unless the
/// winning class confidence meets its own.
pub open spec fn anchor_record(
    cfg: AnchorGridConfig,
    labels: Seq<String>,
    data: Seq<i64>,
    base: int,
    a: int,
    s: int,
    ow: int,
    oh: int,
) -> Seq<BoundingBox> {
    let el = anchor_el(cfg);
    let off = base + a * el;
    let ch = cfg.anchors_per_cell as int;
    let gx = (a / ch) % grid_w(cfg, s);
    let gy = a / (ch * grid_w(cfg, s));
    if data[off + 4] >= cfg.box_threshold {
        let am = anchor_argmax(data, off + 5, cfg.num_classes as nat);
        if am.1 >= cfg.class_threshold {
            seq![anchor_box(cfg, labels, data, off, gx, gy, s, ow, oh, am.0, am.1)]
        } else {
            Seq::empty()
        }
    } else {
        Seq::empty()
    }
}

/// Candidates of one stride from record `a` onward, in storage order.
pub open spec fn anchor_stride_cands(
    cfg: AnchorGridConfig,
    labels: Seq<String>,
    data: Seq<i64>,
    base: int,
    s: int,
    ow: int,
    oh: int,
    a: int,
) -> Seq<BoundingBox>
    decreases stride_records(cfg, s) - a,
{
    if a < 0 || a >= stride_records(cfg, s) {
        Seq::empty()
    } else {
        anchor_record(cfg, labels, data, base, a, s, ow, oh) + anchor_stride_cands(
            cfg,
            labels,
            data,
            base,
            s,
            ow,
            oh,
            a + 1,
        )
    }
}

/// Candidates of the strides from index `k` onward, each stride's
/// block starting where the previous ones ended.
pub open spec fn anchor_strides_cands(
    cfg: AnchorGridConfig,
    labels: Seq<String>,
    data: Seq<i64>,
    ow: int,
    oh: int,
    k: int,
) -> Seq<BoundingBox>
    decreases cfg.strides@.len() - k,
{
    if k < 0 || k >= cfg.strides@.len() {
        Seq::empty()
    } else {
        anchor_stride_cands(
            cfg,
            labels,
            data,
            blocks_before(cfg, k),
            cfg.strides@[k] as int,
            ow,
            oh,
            0,
        ) + anchor_strides_cands(cfg, labels, data, ow, oh, k + 1)
    }
}

/// Everything the anchor-grid decoder returns.
pub open spec fn anchor_decode_spec(
    cfg: AnchorGridConfig,
    labels: Seq<String>,
    data: Seq<i64>,
    ow: int,
    oh: int,
) -> Seq<BoundingBox> {
    anchor_strides_cands(cfg, labels, data, ow, oh, 0)
}

/// Per-stride sizes: grids fit the model, record and element counts
/// stay in safe ranges.
proof fn lemma_stride_sizes(cfg: AnchorGridConfig, s: int)
    requires
        cfg.valid(),
        1 <= s <= 0x400,
    ensures
        0 <= grid_w(cfg, s) <= 0x10_0000,
        0 <= grid_h(cfg, s) <= 0x10_0000,
        0 <= stride_records(cfg, s) <= 0x1000_0000_0000,
        0 <= stride_block(cfg, s) <= 0x200_0000_0000_0000,
        stride_records(cfg, s) <= stride_block(cfg, s),
{
    vstd::arithmetic::div_mod::lemma_div_pos_is_pos(cfg.model_w as int, s);
    vstd::arithmetic::div_mod::lemma_div_pos_is_pos(cfg.model_h as int, s);
    vstd::arithmetic::div_mod::lemma_div_is_ordered_by_denominator(cfg.model_w as int, 1, s);
    vstd::arithmetic::div_mod::lemma_div_is_ordered_by_denominator(cfg.model_h as int, 1, s);
    vstd::arithmetic::div_mod::lemma_div_basics(cfg.model_w as int);
    vstd::arithmetic::div_mod::lemma_div_basics(cfg.model_h as int);
    let gw = grid_w(cfg, s);
    let gh = grid_h(cfg, s);
    let ch = cfg.anchors_per_cell as int;
    let el = anchor_el(cfg);
    assert(0 <= gw * gh * ch <= 0x1000_0000_0000) by (nonlinear_arith)
        requires
            0 <= gw <= 0x10_0000,
            0 <= gh <= 0x10_0000,
            1 <= ch <= 0x10,
    ;
    assert(gw * gh * ch <= gw * gh * ch * el) by (nonlinear_arith)
        requires
            0 <= gw * gh * ch,
            6 <= el,
    ;
    assert(0 <= gw * gh * ch * el <= 0x200_0000_0000_0000) by (nonlinear_arith)
        requires
            0 <= gw * gh * ch <= 0x1000_0000_0000,
            6 <= el <= 0x1005,
    ;
}

/// The prefix sums of the stride blocks grow monotonically, stay
/// bounded, and are always whole records.
proof fn lemma_blocks_before_props(cfg: AnchorGridConfig, k: int)
    requires
        cfg.valid(),
        0 <= k <= cfg.strides@.len(),
    ensures
        0 <= blocks_before(cfg, k) <= k * 0x200_0000_0000_0000,
        blocks_before(cfg, k) % anchor_el(cfg) == 0,
    decreases k,
{
    let el = anchor_el(cfg);
    if k == 0 {
        vstd::arithmetic::div_mod::lemma_small_mod(0, el as nat);
    } else {
        lemma_blocks_before_props(cfg, k - 1);
        let s = cfg.strides@[k - 1] as int;
        assert(1 <= s <= 0x400);
        lemma_stride_sizes(cfg, s);
        let b = blocks_before(cfg, k - 1);
        let r = stride_records(cfg, s);
        assert((el * r + b) % el == b % el) by {
            vstd::arithmetic::div_mod::lemma_mod_multiples_vanish(r, b, el);
        }
        assert(el * r == r * el) by {
            vstd::arithmetic::mul::lemma_mul_is_commutative(el, r);
        }
    }
}

/// Earlier prefixes never pass later ones.
proof fn lemma_blocks_before_mono(cfg: AnchorGridConfig, j1: int, j2: int)
    requires
        cfg.valid(),
        0 <= j1 <= j2 <= cfg.strides@.len(),
    ensures
        blocks_before(cfg, j1) <= blocks_before(cfg, j2),
    decreases j2 - j1,
{
    if j1 < j2 {
        lemma_blocks_before_mono(cfg, j1, j2 - 1);
        lemma_stride_sizes(cfg, cfg.strides@[j2 - 1] as int);
    }
}

/// A position inside a record, reached from a whole-record base,
/// keeps its place within the record.
proof fn lemma_offset_mod(b: int, a: int, el: int, j: int)
    requires
        0 < el,
        b % el == 0,
        0 <= a,
        0 <= j < el,
    ensures
        (b + a * el + j) % el == j,
{
    vstd::arithmetic::div_mod::lemma_fundamental_div_mod(b, el);
    assert(b == el * (b / el));
    assert(el * (b / el + a) == b + a * el) by (nonlinear_arith)
        requires
            b == el * (b / el),
    ;
    vstd::arithmetic::div_mod::lemma_mod_multiples_vanish(b / el + a, j, el);
    vstd::arithmetic::div_mod::lemma_small_mod(j as nat, el as nat);
}

/// Products of grid dimensions, anchors and record width stay well
/// inside the unsigned 64-bit range.
proof fn lemma_u64_grid_products(gw: int, gh: int, ch: int, el: int)
    requires
        0 <= gw <= 0x10_0000,
        0 <= gh <= 0x10_0000,
        1 <= ch <= 0x10,
        6 <= el <= 0x1005,
    ensures
        0 <= gw * gh <= 0x100_0000_0000,
        0 <= gw * gh * ch <= 0x1000_0000_0000,
        0 <= gw * gh * ch * el <= 0x200_0000_0000_0000,
{
    assert(0 <= gw * gh <= 0x100_0000_0000) by (nonlinear_arith)
        requires
            0 <= gw <= 0x10_0000,
            0 <= gh <= 0x10_0000,
    ;
    assert(0 <= gw * gh * ch <= 0x1000_0000_0000) by (nonlinear_arith)
        requires
            0 <= gw * gh <= 0x100_0000_0000,
            1 <= ch <= 0x10,
    ;
    assert(0 <= gw * gh * ch * el <= 0x200_0000_0000_0000) by (nonlinear_arith)
        requires
            0 <= gw * gh * ch <= 0x1000_0000_0000,
            6 <= el <= 0x1005,
    ;
}

/// The corner numerators stay within the range whose truncated
/// quotient fits the coordinate limit, for any stride that actually
/// has grid cells.
proof fn lemma_anchor_xy_bound(t: int, s: int, mw: int, d: int)
    requires
        -4_500_000_000_000 <= t <= 4_500_000_000_000,
        1 <= s <= mw,
        s <= 0x400,
        mw <= 0x10_0000,
        1 <= d <= DIM_LIMIT,
    ensures
        -(COORD_LIMIT * (2 * mw * FP_ONE)) <= t * s * d <= COORD_LIMIT * (2 * mw * FP_ONE),
        -0x1_0000_0000_0000_0000 <= t * s <= 0x1_0000_0000_0000_0000,
{
    assert(-0x1_0000_0000_0000_0000 <= t * s <= 0x1_0000_0000_0000_0000) by (nonlinear_arith)
        requires
            -4_500_000_000_000 <= t <= 4_500_000_000_000,
            1 <= s <= 0x400,
    ;
    assert(-(COORD_LIMIT * (2 * mw * FP_ONE)) <= t * s * d <= COORD_LIMIT * (2 * mw * FP_ONE))
        by (nonlinear_arith)
        requires
            -4_500_000_000_000 <= t <= 4_500_000_000_000,
            1 <= s <= mw,
            1 <= d <= 0x10000,
            COORD_LIMIT == 0x2000_0000_0000,
            FP_ONE == 1_000_000,
    ;
}

/// The extent numerators stay within the same safe range.
proof fn lemma_anchor_wh_bound(e: int, s: int, mw: int, d: int)
    requires
        0 <= e <= 200_000_000_000,
        1 <= s <= mw,
        s <= 0x400,
        mw <= 0x10_0000,
        1 <= d <= DIM_LIMIT,
    ensures
        0 <= e * s * d <= COORD_LIMIT * (mw * FP_ONE),
        0 <= e * s <= 0x1_0000_0000_0000_0000,
{
    assert(0 <= e * s <= 0x1_0000_0000_0000_0000) by (nonlinear_arith)
        requires
            0 <= e <= 200_000_000_000,
            1 <= s <= 0x400,
    ;
    assert(0 <= e * s * d <= COORD_LIMIT * (mw * FP_ONE)) by (nonlinear_arith)
        requires
            0 <= e <= 200_000_000_000,
            1 <= s <= mw,
            1 <= d <= 0x10000,
            COORD_LIMIT == 0x2000_0000_0000,
            FP_ONE == 1_000_000,
    ;
}

/// Decode a flat multi-scale anchor tensor into candidate boxes in
/// original-image pixel coordinates.  The tensor's length is checked
/// against the configured strides first; a mismatch is refused rather
/// than read out of bounds.
#[verifier::loop_isolation(false)]
#[verifier::rlimit(100)]
pub fn decode_anchor_grid(
    cfg: &AnchorGridConfig,
    labels: &Vec<String>,
    data: &Vec<i64>,
    orig_w: i64,
    orig_h: i64,
) -> (r: Result<Vec<BoundingBox>, DecodeError>)
    requires
        cfg.valid(),
        labels@.len() == cfg.num_classes,
        anchor_inputs_ok(*cfg, data@),
        1 <= orig_w <= DIM_LIMIT,
        1 <= orig_h <= DIM_LIMIT,
    ensures
        r is Ok <==> anchor_shape_ok(*cfg, data@),
        anchor_shape_ok(*cfg, data@) ==> (r matches Ok(v) && v@ == anchor_decode_spec(
            *cfg,
            labels@,
            data@,
            orig_w as int,
            orig_h as int,
        ) && all_valid(v@)),
        !anchor_shape_ok(*cfg, data@) ==> r === Err(DecodeError::ShapeMismatch),
{
    let nstrides = cfg.strides.len();
    let el: usize = cfg.num_classes + 5;
    let ch: usize = cfg.anchors_per_cell;
    let mut expected: u64 = 0;
    let mut k: usize = 0;
    while k < nstrides
        invariant
            k <= nstrides,
            expected == blocks_before(*cfg, k as int),
            expected <= (k as int) * 0x200_0000_0000_0000,
        decreases nstrides - k,
    {
        let s = cfg.strides[k];
        proof {
            lemma_stride_sizes(*cfg, s as int);
            lemma_blocks_before_props(*cfg, k as int);
        }
        let gw: u64 = (cfg.model_w as u64) / (s as u64);
        let gh: u64 = (cfg.model_h as u64) / (s as u64);
        proof {
            lemma_u64_grid_products(gw as int, gh as int, ch as int, el as int);
        }
        let blk: u64 = gw * gh * (ch as u64) * (el as u64);
        expected = expected + blk;
        k = k + 1;
    }
    if (data.len() as u64) != expected {
        return Err(DecodeError::ShapeMismatch);
    }
    let ghost gl = labels@;
    let ghost gd = data@;
    let ghost ow = orig_w as int;
    let ghost oh = orig_h as int;
    let mut out: Vec<BoundingBox> = Vec::new();
    proof {
        assert(out@ + anchor_strides_cands(*cfg, gl, gd, ow, oh, 0) =~= anchor_strides_cands(
            *cfg,
            gl,
            gd,
            ow,
            oh,
            0,
        ));
    }
    let mut base: usize = 0;
    let mut k2: usize = 0;
    while k2 < nstrides
        invariant
            k2 <= nstrides,
            base == blocks_before(*cfg, k2 as int),
            base <= data.len(),
            all_valid(out@),
            anchor_decode_spec(*cfg, gl, gd, ow, oh) == out@ + anchor_strides_cands(
                *cfg,
                gl,
                gd,
                ow,
                oh,
                k2 as int,
            ),
        decreases nstrides - k2,
    {
        let s = cfg.strides[k2];
        proof {
            lemma_stride_sizes(*cfg, s as int);
            lemma_blocks_before_props(*cfg, k2 as int);
            lemma_blocks_before_props(*cfg, k2 as int + 1);
            lemma_blocks_before_mono(*cfg, k2 as int + 1, nstrides as int);
        }
        let gw: u64 = (cfg.model_w as u64) / (s as u64);
        let gh: u64 = (cfg.model_h as u64) / (s as u64);
        proof {
            lemma_u64_grid_products(gw as int, gh as int, ch as int, el as int);
        }
        let n_rec_u: u64 = gw * gh * (ch as u64);
        let blk: u64 = n_rec_u * (el as u64);
        proof {
            assert(n_rec_u <= blk) by (nonlinear_arith)
                requires
                    blk == n_rec_u * el,
                    el >= 1,
                    n_rec_u >= 0,
            ;
            assert(base + blk == blocks_before(*cfg, k2 as int + 1));
            assert(base + blk <= data.len());
        }
        let n_rec: usize = n_rec_u as usize;
        let ghost bs = base as int;
        let ghost si = s as int;
        proof {
            assert(anchor_strides_cands(*cfg, gl, gd, ow, oh, k2 as int) == anchor_stride_cands(
                *cfg,
                gl,
                gd,
                bs,
                si,
                ow,
                oh,
                0,
            ) + anchor_strides_cands(*cfg, gl, gd, ow, oh, k2 as int + 1));
            assert(out@ + (anchor_stride_cands(*cfg, gl, gd, bs, si, ow, oh, 0)
                + anchor_strides_cands(*cfg, gl, gd, ow, oh, k2 as int + 1)) =~= (out@
                + anchor_stride_cands(*cfg, gl, gd, bs, si, ow, oh, 0)) + anchor_strides_cands(
                *cfg,
                gl,
                gd,
                ow,
                oh,
                k2 as int + 1,
            ));
        }
        let mut a: usize = 0;
        while a < n_rec
            invariant
                a <= n_rec,
                all_valid(out@),
                anchor_decode_spec(*cfg, gl, gd, ow, oh) == (out@ + anchor_stride_cands(
                    *cfg,
                    gl,
                    gd,
                    bs,
                    si,
                    ow,
                    oh,
                    a as int,
                )) + anchor_strides_cands(*cfg, gl, gd, ow, oh, k2 as int + 1),
            decreases n_rec - a,
        {
            proof {
                assert((a as int + 1) * el <= n_rec as int * el) by {
                    vstd::arithmetic::mul::lemma_mul_inequality(
                        a as int + 1,
                        n_rec as int,
                        el as int,
                    );
                }
                assert((a as int) * el >= 0) by {
                    vstd::arithmetic::mul::lemma_mul_nonnegative(a as int, el as int);
                }
                assert((a as int + 1) * el == a as int * el + el) by {
                    vstd::arithmetic::mul::lemma_mul_is_distributive_add_other_way(
                        el as int,
                        a as int,
                        1,
                    );
                    vstd::arithmetic::mul::lemma_mul_basics(el as int);
                }
            }
            let off: usize = base + a * el;
            proof {
                lemma_offset_mod(bs, a as int, el as int, 4);
            }
            let bc = data[off + 4];
            let ghost goff = off as int;
            let ghost rec = anchor_record(*cfg, gl, gd, bs, a as int, si, ow, oh);
            proof {
                assert(anchor_stride_cands(*cfg, gl, gd, bs, si, ow, oh, a as int) == rec
                    + anchor_stride_cands(*cfg, gl, gd, bs, si, ow, oh, a as int + 1));
            }
            if bc >= cfg.box_threshold {
                let mut cls: i64 = 0;
                let mut conf: i64 = 0;
                let mut ci: usize = 0;
                while ci < cfg.num_classes
                    invariant
                        ci <= cfg.num_classes,
                        0 <= cls <= ci,
                        cls < cfg.num_classes,
                        (cls as int, conf as int) === anchor_argmax(gd, goff + 5, ci as nat),
                    decreases cfg.num_classes - ci,
                {
                    let v = data[off + 5 + ci];
                    if v > conf {
                        conf = v;
                        cls = ci as i64;
                    }
                    ci = ci + 1;
                }
                proof {
                    assert forall|j: int| 0 <= j < cfg.num_classes implies 0 <= #[trigger] gd[goff
                        + 5 + j] <= FP_ONE by {
                        lemma_offset_mod(bs, a as int, el as int, 5 + j);
                    }
                    lemma_anchor_argmax_bounds(gd, goff + 5, cfg.num_classes as nat);
                }
                if conf >= cfg.class_threshold {
                    proof {
                        assert(n_rec_u as int == grid_w(*cfg, si) * grid_h(*cfg, si)
                            * cfg.anchors_per_cell);
                        assert(gw > 0 && gh > 0) by (nonlinear_arith)
                            requires
                                0 < (gw as int) * (gh as int) * (ch as int),
                                n_rec_u == gw * gh * ch,
                                0 < n_rec_u,
                        ;
                    }
                    let gx: u64 = ((a as u64) / (ch as u64)) % gw;
                    proof {
                        assert(1 <= (ch as int) * (gw as int) <= 0x100_0000) by (nonlinear_arith)
                            requires
                                1 <= ch <= 0x10,
                                1 <= gw <= 0x10_0000,
                        ;
                    }
                    let gy: u64 = (a as u64) / ((ch as u64) * gw);
                    proof {
                        assert(gy < gh) by {
                            assert((a as int) < ((ch as int) * (gw as int)) * (gh as int))
                                by (nonlinear_arith)
                                requires
                                    (a as int) < (gw as int) * (gh as int) * (ch as int),
                            ;
                            vstd::arithmetic::div_mod::lemma_multiply_divide_lt(
                                a as int,
                                (ch as int) * (gw as int),
                                gh as int,
                            );
                        }
                        lemma_offset_mod(bs, a as int, el as int, 0);
                        lemma_offset_mod(bs, a as int, el as int, 1);
                        lemma_offset_mod(bs, a as int, el as int, 2);
                        lemma_offset_mod(bs, a as int, el as int, 3);
                    }
                    let pcx = data[off];
                    let pcy = data[off + 1];
                    let pw = data[off + 2];
                    let ph = data[off + 3];
                    let ew = exp_fp(pw);
                    let eh = exp_fp(ph);
                    let tx: i64 = 2 * (pcx + (gx as i64) * FP_ONE) - ew;
                    let ty: i64 = 2 * (pcy + (gy as i64) * FP_ONE) - eh;
                    proof {
                        assert(si <= cfg.model_w && si <= cfg.model_h) by {
                            assert(grid_w(*cfg, si) >= 1);
                            assert(grid_h(*cfg, si) >= 1);
                            if si > cfg.model_w {
                                vstd::arithmetic::div_mod::lemma_basic_div(cfg.model_w as int, si);
                            }
                            if si > cfg.model_h {
                                vstd::arithmetic::div_mod::lemma_basic_div(cfg.model_h as int, si);
                            }
                        }
                        lemma_anchor_xy_bound(tx as int, si, cfg.model_w as int, ow);
                        lemma_anchor_xy_bound(ty as int, si, cfg.model_h as int, oh);
                        lemma_anchor_wh_bound(ew as int, si, cfg.model_w as int, ow);
                        lemma_anchor_wh_bound(eh as int, si, cfg.model_h as int, oh);
                    }
                    let den_x: i128 = 2 * (cfg.model_w as i128) * (FP_ONE as i128);
                    let den_y: i128 = 2 * (cfg.model_h as i128) * (FP_ONE as i128);
                    let den_w: i128 = (cfg.model_w as i128) * (FP_ONE as i128);
                    let den_h: i128 = (cfg.model_h as i128) * (FP_ONE as i128);
                    let num_x: i128 = (tx as i128) * (s as i128) * (orig_w as i128);
                    let num_y: i128 = (ty as i128) * (s as i128) * (orig_h as i128);
                    let num_w: i128 = (ew as i128) * (s as i128) * (orig_w as i128);
                    let num_h: i128 = (eh as i128) * (s as i128) * (orig_h as i128);
                    proof {
                        lemma_div_trunc_bound(num_x as int, den_x as int, COORD_LIMIT as int);
                        lemma_div_trunc_bound(num_y as int, den_y as int, COORD_LIMIT as int);
                        lemma_div_trunc_bound(num_w as int, den_w as int, COORD_LIMIT as int);
                        lemma_div_trunc_bound(num_h as int, den_h as int, COORD_LIMIT as int);
                    }
                    let x = scale_div(num_x, den_x);
                    let y = scale_div(num_y, den_y);
                    let w = scale_div(num_w, den_w);
                    let h = scale_div(num_h, den_h);
                    let lbl = labels[cls as usize].clone();
                    let bb = BoundingBox { class_id: cls as i32, label: lbl, score: conf, x, y, w, h };
                    proof {
                        let am = anchor_argmax(gd, goff + 5, cfg.num_classes as nat);
                        assert(bb == anchor_box(
                            *cfg,
                            gl,
                            gd,
                            goff,
                            gx as int,
                            gy as int,
                            si,
                            ow,
                            oh,
                            am.0,
                            am.1,
                        ));
                        assert(bb.valid());
                        assert(rec == seq![bb]);
                        let pre = out@;
                        let tailc = anchor_stride_cands(*cfg, gl, gd, bs, si, ow, oh, a as int + 1);
                        let strest = anchor_strides_cands(*cfg, gl, gd, ow, oh, k2 as int + 1);
                        assert(((pre + seq![bb]) + tailc) + strest =~= (pre + (seq![bb] + tailc))
                            + strest);
                    }
                    out.push(bb);
                } else {
                    proof {
                        assert(rec =~= Seq::<BoundingBox>::empty());
                        lemma_skip_record(
                            out@,
                            rec,
                            anchor_stride_cands(*cfg, gl, gd, bs, si, ow, oh, a as int + 1),
                            anchor_strides_cands(*cfg, gl, gd, ow, oh, k2 as int + 1),
                        );
                    }
                }
            } else {
                proof {
                    assert(rec =~= Seq::<BoundingBox>::empty());
                    lemma_skip_record(
                        out@,
                        rec,
                        anchor_stride_cands(*cfg, gl, gd, bs, si, ow, oh, a as int + 1),
                        anchor_strides_cands(*cfg, gl, gd, ow, oh, k2 as int + 1),
                    );
                }
            }
            a = a + 1;
        }
        proof {
            assert(anchor_stride_cands(*cfg, gl, gd, bs, si, ow, oh, n_rec as int)
                =~= Seq::<BoundingBox>::empty());
            assert(out@ + Seq::<BoundingBox>::empty() =~= out@);
        }
        base = base + blk as usize;
        k2 = k2 + 1;
    }
    proof {
        assert(anchor_strides_cands(*cfg, gl, gd, ow, oh, nstrides as int)
            =~= Seq::<BoundingBox>::empty());
        assert(out@ + Seq::<BoundingBox>::empty() =~= out@);
    }
    Ok(out)
}

/// An empty record leaves the running decomposition unchanged.
proof fn lemma_skip_record(
    pre: Seq<BoundingBox>,
    rec: Seq<BoundingBox>,
    tailc: Seq<BoundingBox>,
    strest: Seq<BoundingBox>,
)
    requires
        rec == Seq::<BoundingBox>::empty(),
    ensures
        (pre + (rec + tailc)) + strest == (pre + tailc) + strest,
{
    assert((pre + (rec + tailc)) + strest =~= (pre + tailc) + strest);
}

} // verus!
