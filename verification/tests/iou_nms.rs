// Overlap measure and suppression behaviour on concrete boxes:
// identity and disjointness, exact ratios, degenerate geometry,
// ordering, stability, idempotence, and the screen clamp.

use detpost::bbox::{calculate_iou, fit_in_screen, BoundingBox};
use detpost::fp::FP_ONE;
use detpost::nms::nms;

fn mk(class_id: i32, label: &str, score: i64, x: i64, y: i64, w: i64, h: i64) -> BoundingBox {
    BoundingBox { class_id, label: String::from(label), score, x, y, w, h }
}

#[test]
fn iou_of_a_box_with_itself_is_one() {
    let a = mk(0, "a", 500_000, 3, -4, 10, 20);
    assert_eq!(calculate_iou(&a, &a), FP_ONE);
}

#[test]
fn iou_of_disjoint_boxes_is_zero() {
    let a = mk(0, "a", 500_000, 0, 0, 10, 10);
    let b = mk(0, "b", 500_000, 100, 0, 10, 10);
    assert_eq!(calculate_iou(&a, &b), 0);
    let c = mk(0, "c", 500_000, 0, -100, 10, 10);
    assert_eq!(calculate_iou(&a, &c), 0);
}

#[test]
fn iou_of_touching_boxes_is_zero() {
    let a = mk(0, "a", 500_000, 0, 0, 10, 10);
    let b = mk(0, "b", 500_000, 10, 0, 10, 10);
    assert_eq!(calculate_iou(&a, &b), 0);
}

#[test]
fn iou_exact_partial_overlap() {
    // overlap 5x10 = 50, union 100 + 100 - 50 = 150
    let a = mk(0, "a", 500_000, 0, 0, 10, 10);
    let b = mk(0, "b", 500_000, 5, 0, 10, 10);
    assert_eq!(calculate_iou(&a, &b), 50 * FP_ONE / 150);
    // the example pair: overlap 80, union 100
    let c = mk(0, "c", 900_000, 0, 0, 9, 10);
    let d = mk(0, "d", 800_000, 1, 0, 9, 10);
    assert_eq!(calculate_iou(&c, &d), 800_000);
}

#[test]
fn iou_with_zero_area_box_is_zero() {
    let a = mk(0, "a", 500_000, 0, 0, 10, 10);
    let z = mk(0, "z", 500_000, 5, 5, 0, 0);
    assert_eq!(calculate_iou(&a, &z), 0);
    // both degenerate and identical: denominator is zero, reported 0
    assert_eq!(calculate_iou(&z, &z), 0);
}

#[test]
fn iou_is_within_unit_range() {
    let cases = [
        mk(0, "a", 0, -5, -5, 10, 10),
        mk(1, "b", FP_ONE, 0, 0, 3, 30),
        mk(2, "c", 250_000, 2, 2, 0, 9),
        mk(3, "d", 750_000, -20, 13, 40, 1),
    ];
    for p in cases.iter() {
        for q in cases.iter() {
            let v = calculate_iou(p, q);
            assert!(0 <= v && v <= FP_ONE);
        }
    }
}

#[test]
fn nms_keeps_the_higher_scoring_of_an_overlapping_pair() {
    // the two boxes overlap with ratio 0.8
    let mut input = vec![
        mk(0, "low", 800_000, 1, 0, 9, 10),
        mk(0, "high", 900_000, 0, 0, 9, 10),
    ];
    let kept = nms(&mut input, 600_000);
    assert_eq!(kept.len(), 1);
    assert_eq!(kept[0].label, "high");
    assert_eq!(kept[0].score, 900_000);
    // the candidate list itself is left sorted by descending score
    assert_eq!(input[0].label, "high");
    assert_eq!(input[1].label, "low");
}

#[test]
fn nms_keeps_both_when_the_threshold_is_higher_than_the_overlap() {
    let mut input = vec![
        mk(0, "low", 800_000, 1, 0, 9, 10),
        mk(0, "high", 900_000, 0, 0, 9, 10),
    ];
    let kept = nms(&mut input, 900_000);
    assert_eq!(kept.len(), 2);
    assert_eq!(kept[0].label, "high");
    assert_eq!(kept[1].label, "low");
}

#[test]
fn nms_suppression_is_strict() {
    // overlap exactly equals the threshold: not suppressed
    let mut input = vec![
        mk(0, "low", 800_000, 1, 0, 9, 10),
        mk(0, "high", 900_000, 0, 0, 9, 10),
    ];
    let kept = nms(&mut input, 800_000);
    assert_eq!(kept.len(), 2);
}

#[test]
fn nms_orders_by_descending_score() {
    let mut input = vec![
        mk(0, "c", 300_000, 0, 0, 5, 5),
        mk(1, "a", 900_000, 100, 0, 5, 5),
        mk(2, "b", 600_000, 200, 0, 5, 5),
    ];
    let kept = nms(&mut input, 500_000);
    let labels: Vec<&str> = kept.iter().map(|b| b.label.as_str()).collect();
    assert_eq!(labels, vec!["a", "b", "c"]);
}

#[test]
fn nms_is_stable_on_equal_scores() {
    let mut input = vec![
        mk(0, "first", 500_000, 0, 0, 5, 5),
        mk(1, "second", 500_000, 100, 0, 5, 5),
        mk(2, "third", 500_000, 200, 0, 5, 5),
    ];
    let kept = nms(&mut input, FP_ONE);
    let labels: Vec<&str> = kept.iter().map(|b| b.label.as_str()).collect();
    assert_eq!(labels, vec!["first", "second", "third"]);
}

#[test]
fn nms_of_empty_list_is_empty() {
    let mut input: Vec<BoundingBox> = Vec::new();
    let kept = nms(&mut input, 600_000);
    assert!(kept.is_empty());
}

#[test]
fn nms_output_is_never_longer_than_the_input() {
    let mut input = vec![
        mk(0, "a", 900_000, 0, 0, 10, 10),
        mk(0, "b", 850_000, 1, 0, 10, 10),
        mk(0, "c", 800_000, 2, 0, 10, 10),
        mk(0, "d", 100_000, 3, 0, 10, 10),
    ];
    let n = input.len();
    let kept = nms(&mut input, 300_000);
    assert!(kept.len() <= n);
}

#[test]
fn nms_is_idempotent() {
    let mut input = vec![
        mk(0, "a", 900_000, 0, 0, 10, 10),
        mk(1, "b", 850_000, 2, 0, 10, 10),
        mk(2, "c", 800_000, 30, 0, 10, 10),
        mk(3, "d", 800_000, 31, 0, 10, 10),
        mk(4, "e", 100_000, 200, 0, 10, 10),
    ];
    let mut once = nms(&mut input, 400_000);
    let mut first_pass = Vec::new();
    for b in once.iter() {
        first_pass.push(b.clone());
    }
    let twice = nms(&mut once, 400_000);
    assert_eq!(twice.len(), first_pass.len());
    for (p, q) in twice.iter().zip(first_pass.iter()) {
        assert_eq!(p.class_id, q.class_id);
        assert_eq!(p.label, q.label);
        assert_eq!(p.score, q.score);
        assert_eq!((p.x, p.y, p.w, p.h), (q.x, q.y, q.w, q.h));
    }
}

#[test]
fn nms_retained_pairs_respect_the_threshold() {
    let mut input = vec![
        mk(0, "a", 900_000, 0, 0, 10, 10),
        mk(0, "b", 850_000, 1, 0, 10, 10),
        mk(0, "c", 800_000, 2, 0, 10, 10),
        mk(0, "d", 750_000, 8, 0, 10, 10),
        mk(0, "e", 700_000, 40, 0, 10, 10),
    ];
    let thr = 300_000;
    let kept = nms(&mut input, thr);
    for i in 0..kept.len() {
        for j in (i + 1)..kept.len() {
            // measured from the higher-scoring (earlier) member
            assert!(calculate_iou(&kept[i], &kept[j]) <= thr);
        }
    }
}

#[test]
fn nms_with_negative_threshold_keeps_only_the_top_overlapping_box() {
    // any overlap strictly exceeds a negative threshold, but the
    // far-away box does not even touch the winner and still has
    // overlap 0 > -1, so it is suppressed too
    let mut input = vec![
        mk(0, "top", 900_000, 0, 0, 10, 10),
        mk(0, "near", 800_000, 1, 0, 10, 10),
        mk(0, "far", 700_000, 500, 0, 10, 10),
    ];
    let kept = nms(&mut input, -1);
    assert_eq!(kept.len(), 1);
    assert_eq!(kept[0].label, "top");
}

#[test]
fn fit_in_screen_clamps_to_the_frame() {
    let mut b = mk(0, "a", 500_000, -5, -7, 20, 30);
    fit_in_screen(&mut b, 10, 12);
    assert_eq!((b.x, b.y, b.w, b.h), (0, 0, 10, 12));
    let mut c = mk(0, "c", 500_000, 3, 4, 4, 4);
    fit_in_screen(&mut c, 10, 12);
    assert_eq!((c.x, c.y, c.w, c.h), (3, 4, 4, 4));
}
