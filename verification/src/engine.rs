//! The detection engine: configuration chosen at construction, then a
//! pure transform per frame from raw output tensors to a suppressed,
//! labelled box list.
//!
//! Resizing, normalization and network inference happen outside; the
//! engine receives the network's output tensors as plain fixed-point
//! values together with the original image dimensions, picks its
//! decoder, and finishes with non-maximum suppression.

use vstd::prelude::*;

verus! {

use crate::bbox::BoundingBox;
use crate::error::DecodeError;
use crate::heatmap::{
    HeatmapConfig, heatmap_shape_ok, heatmap_inputs_ok, heatmap_decode_spec, decode_heatmap,
    DIM_LIMIT,
};
use crate::anchor::{
    AnchorGridConfig, anchor_shape_ok, anchor_inputs_ok, anchor_decode_spec, decode_anchor_grid,
};
use crate::nms::{nms, nms_filter, stable_sort_desc, all_valid};

/// The decoder capability: both variants turn tensors into candidate
/// boxes that feed the shared suppression stage.
pub enum DecoderConfig {
    Heatmap(HeatmapConfig),
    AnchorGrid(AnchorGridConfig),
}

impl DecoderConfig {
    /// The wrapped configuration is valid.
    pub open spec fn valid(self) -> bool {
        match self {
            DecoderConfig::Heatmap(c) => c.valid(),
            DecoderConfig::AnchorGrid(c) => c.valid(),
        }
    }

    /// How many classes the decoder distinguishes; the label table
    /// must have exactly this many entries.
    pub open spec fn num_classes(self) -> int {
        match self {
            DecoderConfig::Heatmap(c) => c.num_classes as int,
            DecoderConfig::AnchorGrid(c) => c.num_classes as int,
        }
    }

    /// How many output tensors the decoder consumes.
    pub open spec fn num_outputs(self) -> int {
        match self {
            DecoderConfig::Heatmap(_) => 3,
            DecoderConfig::AnchorGrid(_) => 1,
        }
    }
}

/// One loaded detector: a decoder configuration, the label table
/// resolved at construction, and the overlap threshold for the
/// suppression stage.  Immutable for its whole lifetime.
pub struct DetectionEngine {
    pub decoder: DecoderConfig,
    pub label_list: Vec<String>,
    pub nms_iou_threshold: i64,
}

impl DetectionEngine {
    /// Engine invariant: a valid decoder and one label per class.
    pub open spec fn wf(self) -> bool {
        &&& self.decoder.valid()
        &&& self.label_list@.len() == self.decoder.num_classes()
    }

    /// The output tensors have the count and lengths the decoder
    /// expects.
    pub open spec fn shapes_ok(self, outputs: Seq<Vec<i64>>) -> bool {
        match self.decoder {
            DecoderConfig::Heatmap(c) => outputs.len() == 3 && heatmap_shape_ok(
                c,
                outputs[0]@,
                outputs[1]@,
                outputs[2]@,
            ),
            DecoderConfig::AnchorGrid(c) => outputs.len() == 1 && anchor_shape_ok(c, outputs[0]@),
        }
    }

    /// The tensor values stay within the ranges the decoder's exact
    /// arithmetic supports.
    pub open spec fn inputs_ok(self, outputs: Seq<Vec<i64>>) -> bool {
        match self.decoder {
            DecoderConfig::Heatmap(_) => outputs.len() == 3 ==> heatmap_inputs_ok(
                outputs[1]@,
                outputs[2]@,
            ),
            DecoderConfig::AnchorGrid(c) => outputs.len() == 1 ==> anchor_inputs_ok(
                c,
                outputs[0]@,
            ),
        }
    }

    /// The candidates the configured decoder produces, before
    /// suppression.
    pub open spec fn candidates_spec(self, outputs: Seq<Vec<i64>>, ow: int, oh: int) -> Seq<
        BoundingBox,
    > {
        match self.decoder {
            DecoderConfig::Heatmap(c) => heatmap_decode_spec(
                c,
                self.label_list@,
                outputs[0]@,
                outputs[1]@,
                outputs[2]@,
                ow,
                oh,
            ),
            DecoderConfig::AnchorGrid(c) => anchor_decode_spec(
                c,
                self.label_list@,
                outputs[0]@,
                ow,
                oh,
            ),
        }
    }

    /// The engine's whole per-frame transform: decode, sort by score,
    /// suppress.
    pub open spec fn process_spec(self, outputs: Seq<Vec<i64>>, ow: int, oh: int) -> Seq<
        BoundingBox,
    > {
        nms_filter(
            stable_sort_desc(self.candidates_spec(outputs, ow, oh)),
            self.nms_iou_threshold as int,
        )
    }

    /// Runtime check of the engine invariant's ingredients, for
    /// callers that assemble a configuration from unchecked data: the
    /// answer is exactly whether the decoder configuration is valid
    /// and the label table matches its class count.
    pub fn config_ok(decoder: &DecoderConfig, label_list: &Vec<String>) -> (b: bool)
        ensures
            b == (decoder.valid() && label_list@.len() == decoder.num_classes()),
    {
        match decoder {
            DecoderConfig::Heatmap(c) => {
                if !(1 <= c.num_classes && c.num_classes <= 0x1000 && 1 <= c.hm_w && c.hm_w
                    <= 0x1000 && 1 <= c.hm_h && c.hm_h <= 0x1000 && 1 <= c.scale && c.scale
                    <= 0x100) {
                    return false;
                }
                proof {
                    assert(1 <= (c.hm_w as int) * (c.scale as int) <= 0x10_0000)
                        by (nonlinear_arith)
                        requires
                            1 <= c.hm_w <= 0x1000,
                            1 <= c.scale <= 0x100,
                    ;
                    assert(1 <= (c.hm_h as int) * (c.scale as int) <= 0x10_0000)
                        by (nonlinear_arith)
                        requires
                            1 <= c.hm_h <= 0x1000,
                            1 <= c.scale <= 0x100,
                    ;
                }
                let mw: i64 = (c.hm_w as i64) * c.scale;
                let mh: i64 = (c.hm_h as i64) * c.scale;
                c.model_w == mw && c.model_h == mh && label_list.len() == c.num_classes
            },
            DecoderConfig::AnchorGrid(c) => {
                if !(1 <= c.num_classes && c.num_classes <= 0x1000 && 1 <= c.anchors_per_cell
                    && c.anchors_per_cell <= 0x10 && c.strides.len() <= 0x10 && 1 <= c.model_w
                    && c.model_w <= 0x10_0000 && 1 <= c.model_h && c.model_h <= 0x10_0000) {
                    return false;
                }
                let mut i: usize = 0;
                let mut strides_ok = true;
                while i < c.strides.len()
                    invariant
                        i <= c.strides@.len(),
                        strides_ok == (forall|j: int|
                            0 <= j < i ==> 1 <= #[trigger] c.strides@[j] <= 0x400),
                    decreases c.strides@.len() - i,
                {
                    let s = c.strides[i];
                    if !(1 <= s && s <= 0x400) {
                        strides_ok = false;
                    }
                    i = i + 1;
                }
                strides_ok && label_list.len() == c.num_classes
            },
        }
    }

    /// Runtime check that every tensor value is inside the range the
    /// configured decoder's exact arithmetic supports; the answer is
    /// exactly the `inputs_ok` side condition of [`Self::process`].
    pub fn inputs_within_limits(&self, outputs: &Vec<Vec<i64>>) -> (b: bool)
        requires
            self.wf(),
        ensures
            b == self.inputs_ok(outputs@),
    {
        match &self.decoder {
            DecoderConfig::Heatmap(_) => {
                if outputs.len() != 3 {
                    return true;
                }
                range_within(&outputs[1], -crate::heatmap::TENSOR_VAL_LIMIT, crate::heatmap::TENSOR_VAL_LIMIT)
                    && range_within(&outputs[2], -crate::heatmap::TENSOR_VAL_LIMIT, crate::heatmap::TENSOR_VAL_LIMIT)
            },
            DecoderConfig::AnchorGrid(c) => {
                if outputs.len() != 1 {
                    return true;
                }
                anchor_values_within(c, &outputs[0])
            },
        }
    }
}

/// Every element of the vector lies inside the closed range.
fn range_within(v: &Vec<i64>, lo: i64, hi: i64) -> (b: bool)
    ensures
        b == (forall|i: int| 0 <= i < v@.len() ==> lo <= #[trigger] v@[i] <= hi),
{
    let mut i: usize = 0;
    let mut ok = true;
    while i < v.len()
        invariant
            i <= v@.len(),
            ok == (forall|j: int| 0 <= j < i ==> lo <= #[trigger] v@[j] <= hi),
        decreases v@.len() - i,
    {
        let x = v[i];
        if !(lo <= x && x <= hi) {
            ok = false;
        }
        i = i + 1;
    }
    ok
}

/// The flat anchor tensor meets all three positional value bounds.
fn anchor_values_within(cfg: &AnchorGridConfig, data: &Vec<i64>) -> (b: bool)
    requires
        1 <= cfg.num_classes <= 0x1000,
    ensures
        b == anchor_inputs_ok(*cfg, data@),
{
    let el: usize = cfg.num_classes + 5;
    let mut i: usize = 0;
    let mut ok_gen = true;
    let mut ok_size = true;
    let mut ok_conf = true;
    while i < data.len()
        invariant
            i <= data@.len(),
            el == crate::anchor::anchor_el(*cfg),
            ok_gen == (forall|j: int|
                0 <= j < i ==> -crate::heatmap::TENSOR_VAL_LIMIT <= #[trigger] data@[j]
                    <= crate::heatmap::TENSOR_VAL_LIMIT),
            ok_size == (forall|j: int|
                0 <= j < i && (j % crate::anchor::anchor_el(*cfg) == 2 || j
                    % crate::anchor::anchor_el(*cfg) == 3)
                    ==> -crate::anchor::SIZE_PRED_LIMIT <= #[trigger] data@[j]
                    <= crate::anchor::SIZE_PRED_LIMIT),
            ok_conf == (forall|j: int|
                0 <= j < i && j % crate::anchor::anchor_el(*cfg) >= 4 ==> 0 <= #[trigger] data@[j]
                    <= crate::fp::FP_ONE),
        decreases data@.len() - i,
    {
        let x = data[i];
        let r: usize = i % el;
        if !(-crate::heatmap::TENSOR_VAL_LIMIT <= x && x <= crate::heatmap::TENSOR_VAL_LIMIT) {
            ok_gen = false;
        }
        if (r == 2 || r == 3) && !(-crate::anchor::SIZE_PRED_LIMIT <= x && x
            <= crate::anchor::SIZE_PRED_LIMIT) {
            ok_size = false;
        }
        if r >= 4 && !(0 <= x && x <= crate::fp::FP_ONE) {
            ok_conf = false;
        }
        i = i + 1;
    }
    ok_gen && ok_size && ok_conf
}

impl DetectionEngine {
    /// Build an engine from an already validated configuration, the
    /// label table (one line per class, in class order), and the
    /// suppression threshold.  Callers validate first — a bad
    /// configuration is a construction failure, not a recoverable
    /// state.
    pub fn new(decoder: DecoderConfig, label_list: Vec<String>, nms_iou_threshold: i64) -> (r:
        Self)
        requires
            decoder.valid(),
            label_list@.len() == decoder.num_classes(),
        ensures
            r.wf(),
            r.decoder == decoder,
            r.label_list == label_list,
            r.nms_iou_threshold == nms_iou_threshold,
    {
        DetectionEngine { decoder, label_list, nms_iou_threshold }
    }

    /// One frame: decode the network's output tensors and suppress
    /// duplicates.  Returns the kept boxes in descending-score
    /// visiting order; a tensor count or length that contradicts the
    /// configuration is refused as a shape mismatch, and an empty
    /// detection set is a normal result.
    pub fn process(&self, outputs: &Vec<Vec<i64>>, orig_w: i64, orig_h: i64) -> (r: Result<
        Vec<BoundingBox>,
        DecodeError,
    >)
        requires
            self.wf(),
            self.inputs_ok(outputs@),
            1 <= orig_w <= DIM_LIMIT,
            1 <= orig_h <= DIM_LIMIT,
        ensures
            r is Ok <==> self.shapes_ok(outputs@),
            self.shapes_ok(outputs@) ==> (r matches Ok(v) && v@ == self.process_spec(
                outputs@,
                orig_w as int,
                orig_h as int,
            ) && all_valid(v@) && v@.len() <= self.candidates_spec(
                outputs@,
                orig_w as int,
                orig_h as int,
            ).len()),
            !self.shapes_ok(outputs@) ==> r === Err(DecodeError::ShapeMismatch),
    {
        match &self.decoder {
            DecoderConfig::Heatmap(c) => {
                if outputs.len() != 3 {
                    return Err(DecodeError::ShapeMismatch);
                }
                let decoded = decode_heatmap(
                    c,
                    &self.label_list,
                    &outputs[0],
                    &outputs[1],
                    &outputs[2],
                    orig_w,
                    orig_h,
                );
                match decoded {
                    Ok(mut cands) => {
                        let kept = nms(&mut cands, self.nms_iou_threshold);
                        Ok(kept)
                    },
                    Err(e) => Err(e),
                }
            },
            DecoderConfig::AnchorGrid(c) => {
                if outputs.len() != 1 {
                    return Err(DecodeError::ShapeMismatch);
                }
                let decoded = decode_anchor_grid(
                    c,
                    &self.label_list,
                    &outputs[0],
                    orig_w,
                    orig_h,
                );
                match decoded {
                    Ok(mut cands) => {
                        let kept = nms(&mut cands, self.nms_iou_threshold);
                        Ok(kept)
                    },
                    Err(e) => Err(e),
                }
            },
        }
    }
}

} // verus!
