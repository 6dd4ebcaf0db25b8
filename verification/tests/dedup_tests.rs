use region_dedup::dedup::{deduplicate, det_eq, structure, Detection};
use region_dedup::geometry::{contained, iou_gt, iou_parts, Rect, Threshold};

fn det(label: &str, x_min: i64, y_min: i64, x_max: i64, y_max: i64) -> Detection {
    Detection {
        label: String::from(label),
        rect: Rect { x_min, y_min, x_max, y_max },
    }
}

#[test]
fn empty_input_returns_empty() {
    for (num, den) in [(1, 10), (0, 1), (-3, 7), (1_000_000, 1)] {
        let out = deduplicate(Vec::new(), Threshold { num, den });
        assert!(out.is_empty());
    }
}

#[test]
fn single_detection_survives() {
    let out = deduplicate(vec![det("only", 0, 0, 10, 10)], Threshold { num: 1, den: 10 });
    assert_eq!(out.len(), 1);
    assert_eq!(out[0].label, "only");
    assert_eq!(out[0].rect, Rect { x_min: 0, y_min: 0, x_max: 10, y_max: 10 });
}

#[test]
fn disjoint_input_unchanged() {
    // Pairwise non-overlapping, non-containing rectangles survive in order,
    // whatever the threshold.
    let input = vec![
        det("a", 0, 0, 10, 10),
        det("b", 20, 0, 30, 10),
        det("c", 0, 20, 10, 30),
        det("d", 20, 20, 30, 30),
    ];
    for (num, den) in [(1, 10), (0, 1), (9, 10), (1, 1)] {
        let out = deduplicate(input.clone(), Threshold { num, den });
        assert_eq!(out.len(), input.len());
        for (x, y) in out.iter().zip(input.iter()) {
            assert!(det_eq(x, y));
        }
    }
}

#[test]
fn containment_chain_keeps_outermost() {
    // Three nested rectangles with a threshold too high for the overlap
    // branch: only the outermost survives.
    let input = vec![
        det("outer", 0, 0, 10, 10),
        det("middle", 2, 2, 8, 8),
        det("inner", 4, 4, 6, 6),
    ];
    let out = deduplicate(input, Threshold { num: 9, den: 10 });
    assert_eq!(out.len(), 1);
    assert_eq!(out[0].label, "outer");
}

#[test]
fn conflicting_pair_exactly_one_survives() {
    // IoU = 25/175 > 0.1 and neither contains the other: over many runs one
    // and only one of the pair survives each time.
    for _ in 0..200 {
        let input = vec![det("a", 0, 0, 10, 10), det("b", 5, 5, 15, 15)];
        let out = deduplicate(input, Threshold { num: 1, den: 10 });
        assert_eq!(out.len(), 1);
        assert!(out[0].label == "a" || out[0].label == "b");
    }
}

#[test]
fn low_overlap_with_containment_keeps_container() {
    // IoU = 4/100, not above 0.9, but "a" contains "b": output is exactly
    // [("a", (0, 0, 10, 10))].
    let input = vec![det("a", 0, 0, 10, 10), det("b", 2, 2, 4, 4)];
    let out = deduplicate(input, Threshold { num: 9, den: 10 });
    assert_eq!(out.len(), 1);
    assert_eq!(out[0].label, "a");
    assert_eq!(out[0].rect, Rect { x_min: 0, y_min: 0, x_max: 10, y_max: 10 });
}

#[test]
fn containment_caught_when_contained_comes_first() {
    // The enclosing rectangle arrives second: the anchor is the contained
    // one, the other-encloses-anchor branch drops it, and the container
    // survives alone.
    let input = vec![det("b", 2, 2, 4, 4), det("a", 0, 0, 10, 10)];
    let out = deduplicate(input, Threshold { num: 9, den: 10 });
    assert_eq!(out.len(), 1);
    assert_eq!(out[0].label, "a");
}

#[test]
fn negative_threshold_conflicts_even_disjoint_pairs() {
    // With a negative threshold even an IoU of zero exceeds it, so any pair
    // conflicts and exactly one of the two survives each run.
    for _ in 0..100 {
        let input = vec![det("a", 0, 0, 10, 10), det("b", 20, 20, 30, 30)];
        let out = deduplicate(input, Threshold { num: -1, den: 10 });
        assert_eq!(out.len(), 1);
        assert!(out[0].label == "a" || out[0].label == "b");
    }
}

#[test]
fn structure_is_the_same_pass() {
    let input = vec![det("a", 0, 0, 10, 10), det("b", 2, 2, 4, 4)];
    let out = structure(input, Threshold { num: 9, den: 10 });
    assert_eq!(out.len(), 1);
    assert_eq!(out[0].label, "a");
}

#[test]
fn duplicate_valued_entries_all_removed() {
    // Value-based removal: every copy equal to a marked value disappears.
    let input = vec![
        det("big", 0, 0, 10, 10),
        det("twin", 2, 2, 4, 4),
        det("twin", 2, 2, 4, 4),
    ];
    let out = deduplicate(input, Threshold { num: 1, den: 1 });
    assert_eq!(out.len(), 1);
    assert_eq!(out[0].label, "big");
}

#[test]
fn iou_parts_exact_values() {
    let a = Rect { x_min: 0, y_min: 0, x_max: 10, y_max: 10 };
    let b = Rect { x_min: 5, y_min: 5, x_max: 15, y_max: 15 };
    // intersection 5*5 = 25, union 100 + 100 - 25 = 175
    assert_eq!(iou_parts(&a, &b), (25, 175));
    let c = Rect { x_min: 2, y_min: 2, x_max: 4, y_max: 4 };
    // intersection 4, union 100 + 4 - 4 = 100
    assert_eq!(iou_parts(&a, &c), (4, 100));
}

#[test]
fn iou_symmetric_and_bounded_on_samples() {
    let rects = [
        Rect { x_min: 0, y_min: 0, x_max: 10, y_max: 10 },
        Rect { x_min: 5, y_min: 5, x_max: 15, y_max: 15 },
        Rect { x_min: 3, y_min: 3, x_max: 3, y_max: 3 },
        Rect { x_min: 10, y_min: 10, x_max: 0, y_max: 0 },
        Rect { x_min: -7, y_min: 2, x_max: -1, y_max: 9 },
    ];
    for a in rects {
        for b in rects {
            let (n1, d1) = iou_parts(&a, &b);
            let (n2, d2) = iou_parts(&b, &a);
            assert_eq!((n1, d1), (n2, d2));
            assert!(0 <= n1);
            assert!(1 <= d1);
            assert!(n1 <= d1);
        }
    }
}

#[test]
fn zero_union_yields_zero_iou() {
    // Two zero-area rectangles at the same point: the IoU is the defined
    // value 0, so it only exceeds a negative threshold.
    let p = Rect { x_min: 5, y_min: 5, x_max: 5, y_max: 5 };
    assert_eq!(iou_parts(&p, &p), (0, 1));
    assert!(!iou_gt(&p, &p, &Threshold { num: 0, den: 1 }));
    assert!(!iou_gt(&p, &p, &Threshold { num: 1, den: 10 }));
    assert!(iou_gt(&p, &p, &Threshold { num: -1, den: 10 }));
}

#[test]
fn iou_gt_threshold_boundary_is_strict() {
    // IoU = 25/175 = 1/7: strictly greater comparison.
    let a = Rect { x_min: 0, y_min: 0, x_max: 10, y_max: 10 };
    let b = Rect { x_min: 5, y_min: 5, x_max: 15, y_max: 15 };
    assert!(iou_gt(&a, &b, &Threshold { num: 1, den: 10 }));
    assert!(!iou_gt(&a, &b, &Threshold { num: 1, den: 7 }));
    assert!(!iou_gt(&a, &b, &Threshold { num: 2, den: 7 }));
}

#[test]
fn containment_checks_all_four_sides() {
    let a = Rect { x_min: 0, y_min: 0, x_max: 10, y_max: 10 };
    let b = Rect { x_min: 2, y_min: 2, x_max: 4, y_max: 4 };
    let c = Rect { x_min: 2, y_min: 2, x_max: 11, y_max: 4 };
    assert!(contained(&a, &b));
    assert!(!contained(&b, &a));
    assert!(!contained(&a, &c));
    assert!(contained(&a, &a));
}
