// Decoder and engine behaviour on concrete tensors: the worked
// heatmap and anchor-grid examples, shape mismatches, empty results,
// and the end-to-end pass through suppression.

use detpost::anchor::AnchorGridConfig;
use detpost::engine::{DecoderConfig, DetectionEngine};
use detpost::error::DecodeError;
use detpost::fp::FP_ONE;
use detpost::heatmap::HeatmapConfig;
use detpost::numeric::sigmoid_fp;

fn heatmap_cfg() -> HeatmapConfig {
    // 2x2 heatmap, one class, downsample 4, model input 8x8
    HeatmapConfig {
        num_classes: 1,
        hm_w: 2,
        hm_h: 2,
        scale: 4,
        model_w: 8,
        model_h: 8,
        score_threshold: 500_000,
    }
}

fn heatmap_engine() -> DetectionEngine {
    let decoder = DecoderConfig::Heatmap(heatmap_cfg());
    let labels = vec![String::from("thing")];
    assert!(DetectionEngine::config_ok(&decoder, &labels));
    DetectionEngine::new(decoder, labels, 600_000)
}

// One qualifying cell at (hx = 0, hy = 1): offset (0.5, 0.5), size
// (10, 20), image equal to model input.  Expected box:
// center = (0.5, 1.5) * 4 = (2, 6); x = 2 - 20 = -18, y = 6 - 40 = -34,
// w = 40, h = 80.
#[test]
fn heatmap_decodes_the_worked_example() {
    let engine = heatmap_engine();
    let lo = -1_000_000i64;
    let hi = 1_000_000i64;
    // cell order: (0,0) (1,0) (0,1) (1,1); the qualifying cell is index 2
    let hm = vec![lo, lo, hi, lo];
    let half = 500_000i64;
    let xy = vec![0, 0, half, 0, 0, 0, half, 0];
    let wh = vec![0, 0, 10_000_000, 0, 0, 0, 20_000_000, 0];
    let outputs = vec![hm, xy, wh];
    assert!(engine.inputs_within_limits(&outputs));
    let boxes = engine.process(&outputs, 8, 8).unwrap();
    assert_eq!(boxes.len(), 1);
    let b = &boxes[0];
    assert_eq!(b.class_id, 0);
    assert_eq!(b.label, "thing");
    assert_eq!((b.x, b.y, b.w, b.h), (-18, -34, 40, 80));
    // score is the sigmoid of the winning logit
    assert_eq!(b.score, sigmoid_fp(1_000_000));
    assert_eq!(b.score, 731_059);
}

#[test]
fn heatmap_below_threshold_yields_empty() {
    let engine = heatmap_engine();
    // logit(0.5) = 0: nothing strictly above it here
    let hm = vec![0, -1, -2, -3];
    let xy = vec![0; 8];
    let wh = vec![0; 8];
    let boxes = engine.process(&vec![hm, xy, wh], 8, 8).unwrap();
    assert!(boxes.is_empty());
}

#[test]
fn heatmap_shape_mismatch_is_refused() {
    let engine = heatmap_engine();
    let hm = vec![0, 0, 0];  // one element short
    let xy = vec![0; 8];
    let wh = vec![0; 8];
    let r = engine.process(&vec![hm, xy, wh], 8, 8);
    assert_eq!(r, Err(DecodeError::ShapeMismatch));
    // wrong tensor count
    let r2 = engine.process(&vec![vec![0, 0, 0, 0]], 8, 8);
    assert_eq!(r2, Err(DecodeError::ShapeMismatch));
}

fn anchor_cfg() -> AnchorGridConfig {
    AnchorGridConfig {
        num_classes: 4,
        strides: vec![8],
        anchors_per_cell: 1,
        model_w: 8,
        model_h: 8,
        box_threshold: 400_000,
        class_threshold: 200_000,
    }
}

fn anchor_engine() -> DetectionEngine {
    let decoder = DecoderConfig::AnchorGrid(anchor_cfg());
    let labels = vec![
        String::from("c0"),
        String::from("c1"),
        String::from("c2"),
        String::from("c3"),
    ];
    assert!(DetectionEngine::config_ok(&decoder, &labels));
    DetectionEngine::new(decoder, labels, 600_000)
}

// Stride 8, grid cell (0, 0), prediction (0.2, 0.3, 0, 0) so both
// exponentials are 1; class 3 wins.  Expected: center = (1.6, 2.4),
// size = (8, 8), x = 1.6 - 4 = -2.4 -> -2, y = 2.4 - 4 = -1.6 -> -1.
#[test]
fn anchor_decodes_the_worked_example() {
    let engine = anchor_engine();
    let record = vec![200_000, 300_000, 0, 0, 900_000, 100_000, 0, 0, 800_000];
    let outputs = vec![record];
    assert!(engine.inputs_within_limits(&outputs));
    let boxes = engine.process(&outputs, 8, 8).unwrap();
    assert_eq!(boxes.len(), 1);
    let b = &boxes[0];
    assert_eq!(b.class_id, 3);
    assert_eq!(b.label, "c3");
    assert_eq!(b.score, 800_000);
    assert_eq!((b.x, b.y, b.w, b.h), (-2, -1, 8, 8));
}

#[test]
fn anchor_box_gate_skips_the_class_scan() {
    let engine = anchor_engine();
    // box confidence below its threshold: no candidate even though a
    // class confidence is high
    let record = vec![200_000, 300_000, 0, 0, 300_000, 0, 0, 0, 999_999];
    let boxes = engine.process(&vec![record], 8, 8).unwrap();
    assert!(boxes.is_empty());
}

#[test]
fn anchor_class_threshold_filters() {
    let engine = anchor_engine();
    // box confidence passes, class confidences all below
    let record = vec![200_000, 300_000, 0, 0, 900_000, 100_000, 0, 0, 150_000];
    let boxes = engine.process(&vec![record], 8, 8).unwrap();
    assert!(boxes.is_empty());
}

#[test]
fn anchor_shape_mismatch_is_refused() {
    let engine = anchor_engine();
    let record = vec![200_000, 300_000, 0, 0, 900_000, 100_000, 0, 0];  // short
    let r = engine.process(&vec![record], 8, 8);
    assert_eq!(r, Err(DecodeError::ShapeMismatch));
    let r2 = engine.process(&vec![vec![0; 9], vec![0; 9]], 8, 8);
    assert_eq!(r2, Err(DecodeError::ShapeMismatch));
}

// Two overlapping candidates with ratio 0.8 decoded from one grid:
// threshold 0.6 keeps only the higher-scoring one; threshold 0.9
// keeps both.
#[test]
fn engine_suppresses_overlapping_detections() {
    let cfg = AnchorGridConfig {
        num_classes: 1,
        strides: vec![4],
        anchors_per_cell: 1,
        model_w: 8,
        model_h: 8,
        box_threshold: 400_000,
        class_threshold: 200_000,
    };
    // grid 2x2, record = [cx, cy, w, h, boxconf, classconf]
    // cells (0,0) and (1,0) predict the identical box (0, 0, 4, 4):
    // the first from offset +0.5, the second from offset -0.5
    let rec_a = vec![500_000, 500_000, 0, 0, 900_000, 900_000];
    let rec_b = vec![-500_000, 500_000, 0, 0, 900_000, 800_000];
    let rest = vec![0, 0, 0, 0, 0, 0];
    let mut data = Vec::new();
    for r in [&rec_a, &rec_b, &rest, &rest] {
        data.extend_from_slice(r);
    }
    let labels = vec![String::from("obj")];
    let decoder = DecoderConfig::AnchorGrid(cfg);
    assert!(DetectionEngine::config_ok(&decoder, &labels));
    let engine = DetectionEngine::new(decoder, labels, 600_000);
    let boxes = engine.process(&vec![data.clone()], 8, 8).unwrap();
    assert_eq!(boxes.len(), 1);
    assert_eq!(boxes[0].score, 900_000);
    assert_eq!((boxes[0].x, boxes[0].y, boxes[0].w, boxes[0].h), (0, 0, 4, 4));

    // same candidates, a threshold no overlap strictly exceeds: both
    // survive
    let cfg2 = AnchorGridConfig {
        num_classes: 1,
        strides: vec![4],
        anchors_per_cell: 1,
        model_w: 8,
        model_h: 8,
        box_threshold: 400_000,
        class_threshold: 200_000,
    };
    let decoder2 = DecoderConfig::AnchorGrid(cfg2);
    let labels2 = vec![String::from("obj")];
    let engine2 = DetectionEngine::new(decoder2, labels2, FP_ONE);
    let boxes2 = engine2.process(&vec![data], 8, 8).unwrap();
    assert_eq!(boxes2.len(), 2);
    assert_eq!(boxes2[0].score, 900_000);
    assert_eq!(boxes2[1].score, 800_000);
}

#[test]
fn config_check_rejects_bad_configurations() {
    // label count must match the class count
    let decoder = DecoderConfig::Heatmap(heatmap_cfg());
    let too_many = vec![String::from("a"), String::from("b")];
    assert!(!DetectionEngine::config_ok(&decoder, &too_many));
    // model size must be the grid scaled back up
    let mut bad = heatmap_cfg();
    bad.model_w = 9;
    let decoder_bad = DecoderConfig::Heatmap(bad);
    assert!(!DetectionEngine::config_ok(&decoder_bad, &vec![String::from("a")]));
    // a zero stride is refused
    let mut a = anchor_cfg();
    a.strides = vec![0];
    let decoder_a = DecoderConfig::AnchorGrid(a);
    let four = vec![
        String::from("c0"),
        String::from("c1"),
        String::from("c2"),
        String::from("c3"),
    ];
    assert!(!DetectionEngine::config_ok(&decoder_a, &four));
}

#[test]
fn input_limit_check_catches_out_of_range_values() {
    let engine = anchor_engine();
    // a confidence outside [0, 1]
    let record = vec![200_000, 300_000, 0, 0, 2_000_000, 0, 0, 0, 0];
    assert!(!engine.inputs_within_limits(&vec![record]));
    // a size prediction too large for the exponential
    let record2 = vec![200_000, 300_000, 11_000_000, 0, 900_000, 800_000, 0, 0, 0];
    assert!(!engine.inputs_within_limits(&vec![record2]));
    let he = heatmap_engine();
    let hm = vec![0, 0, 0, 0];
    let xy = vec![0; 8];
    let mut wh = vec![0; 8];
    wh[3] = detpost::heatmap::TENSOR_VAL_LIMIT + 1;
    assert!(!he.inputs_within_limits(&vec![hm, xy, wh]));
}

#[test]
fn heatmap_argmax_prefers_the_first_class_on_ties() {
    let cfg = HeatmapConfig {
        num_classes: 2,
        hm_w: 1,
        hm_h: 1,
        scale: 4,
        model_w: 4,
        model_h: 4,
        score_threshold: 500_000,
    };
    let labels = vec![String::from("first"), String::from("second")];
    let decoder = DecoderConfig::Heatmap(cfg);
    assert!(DetectionEngine::config_ok(&decoder, &labels));
    let engine = DetectionEngine::new(decoder, labels, 600_000);
    // both classes carry the same winning logit in the only cell
    let hm = vec![1_000_000, 1_000_000];
    let xy = vec![0, 0];
    let wh = vec![4_000_000, 4_000_000];
    let boxes = engine.process(&vec![hm, xy, wh], 4, 4).unwrap();
    assert_eq!(boxes.len(), 1);
    assert_eq!(boxes[0].class_id, 0);
    assert_eq!(boxes[0].label, "first");
}

#[test]
fn anchor_walks_every_anchor_of_a_cell() {
    let cfg = AnchorGridConfig {
        num_classes: 1,
        strides: vec![8],
        anchors_per_cell: 2,
        model_w: 8,
        model_h: 8,
        box_threshold: 400_000,
        class_threshold: 200_000,
    };
    // two records for the single cell; both qualify, centered apart
    let rec_a = vec![250_000i64, 250_000, 0, 0, 900_000, 900_000];
    let rec_b = vec![4_250_000i64, 4_250_000, 0, 0, 900_000, 800_000];
    let mut data = Vec::new();
    data.extend_from_slice(&rec_a);
    data.extend_from_slice(&rec_b);
    let labels = vec![String::from("obj")];
    let decoder = DecoderConfig::AnchorGrid(cfg);
    assert!(DetectionEngine::config_ok(&decoder, &labels));
    let engine = DetectionEngine::new(decoder, labels, 600_000);
    let boxes = engine.process(&vec![data], 8, 8).unwrap();
    assert_eq!(boxes.len(), 2);
    // both anchors decode: centers (2, 2) and (34, 34), both 8x8
    assert_eq!((boxes[0].x, boxes[0].y), (-2, -2));
    assert_eq!((boxes[1].x, boxes[1].y), (30, 30));
}

#[test]
fn multi_stride_layout_walks_a_running_index() {
    // two strides over a 8x8 model: stride 4 gives a 2x2 grid, stride
    // 8 a 1x1 grid; only the record in the second stride qualifies
    let cfg = AnchorGridConfig {
        num_classes: 1,
        strides: vec![4, 8],
        anchors_per_cell: 1,
        model_w: 8,
        model_h: 8,
        box_threshold: 400_000,
        class_threshold: 200_000,
    };
    let quiet = vec![0i64, 0, 0, 0, 0, 0];
    let live = vec![0i64, 0, 0, 0, 900_000, 700_000];
    let mut data = Vec::new();
    for _ in 0..4 {
        data.extend_from_slice(&quiet);
    }
    data.extend_from_slice(&live);
    let labels = vec![String::from("obj")];
    let decoder = DecoderConfig::AnchorGrid(cfg);
    assert!(DetectionEngine::config_ok(&decoder, &labels));
    let engine = DetectionEngine::new(decoder, labels, 600_000);
    let boxes = engine.process(&vec![data], 8, 8).unwrap();
    assert_eq!(boxes.len(), 1);
    // stride 8, cell (0,0), centered at (0,0), size 8x8
    assert_eq!((boxes[0].x, boxes[0].y, boxes[0].w, boxes[0].h), (-4, -4, 8, 8));
    assert_eq!(boxes[0].score, 700_000);
}
