//! Greedy deduplication of labeled detections.
//!
//! The algorithm repeatedly removes the first element of a working list (the
//! anchor), scans the remaining elements against it, and resolves each
//! conflict: an overlap above the threshold is decided by a coin flip (either
//! the other element is marked for removal, or the anchor is dropped and the
//! scan stops); otherwise an element enclosed by the anchor is marked for
//! removal, and an element enclosing the anchor drops the anchor and stops the
//! scan.  Marked elements are then removed from the working list by value, and
//! the anchor, if kept, is appended to the result.
//!
//! The exact behaviour, including the coin flips, is captured by the spec
//! functions `scan_spec` and `dedup_spec`, which take the sequence of coin
//! outcomes as an explicit argument.  The executable `deduplicate` draws real
//! coins and is proved to return `dedup_spec` of its input for some coin
//! sequence; every property proved of `dedup_spec` for all coin sequences
//! therefore holds of every run.

use vstd::prelude::*;
use crate::geometry::{Rect, Threshold, iou_exceeds, rect_contains, iou_gt, contained};

verus! {

/// A labeled rectangular region.  The label is opaque payload: it is never
/// interpreted, only carried through and compared for equality when marked
/// elements are removed by value.
#[derive(Debug)]
pub struct Detection {
    pub label: String,
    pub rect: Rect,
}

impl Clone for Detection {
    fn clone(&self) -> (r: Detection)
        ensures
            r == *self,
    {
        Detection { label: self.label.clone(), rect: self.rect }
    }
}

/// Value equality of detections: same label text and same rectangle.
pub open spec fn spec_det_eq(a: Detection, b: Detection) -> bool {
    a.label@ == b.label@ && a.rect == b.rect
}

/// Whether some element of `marks` equals `d` by value.
pub open spec fn marked(marks: Seq<Detection>, d: Detection) -> bool {
    exists|q: int| 0 <= q < marks.len() && spec_det_eq(marks[q], d)
}

/// `work` with every element that equals a marked value removed.  Duplicate
/// entries equal to a marked value are all removed; this is the documented
/// value-based removal semantics.
pub open spec fn without_marked(work: Seq<Detection>, marks: Seq<Detection>) -> Seq<Detection>
    decreases work.len(),
{
    if work.len() == 0 {
        Seq::empty()
    } else if marked(marks, work[0]) {
        without_marked(work.drop_first(), marks)
    } else {
        seq![work[0]] + without_marked(work.drop_first(), marks)
    }
}

pub proof fn lemma_without_marked_len(work: Seq<Detection>, marks: Seq<Detection>)
    ensures
        without_marked(work, marks).len() <= work.len(),
    decreases work.len(),
{
    if work.len() > 0 {
        lemma_without_marked_len(work.drop_first(), marks);
    }
}

/// One scan of the anchor against the elements of `rest`, in order, consuming
/// one coin from the front of `coins` at each overlap conflict.  Returns
/// whether the anchor is kept, the elements marked for removal in scan order,
/// and how many coins were consumed.  A missing coin counts as an unfavorable
/// flip: the anchor is dropped.
pub open spec fn scan_spec(
    anchor: Detection,
    rest: Seq<Detection>,
    t: Threshold,
    coins: Seq<bool>,
) -> (bool, Seq<Detection>, nat)
    decreases rest.len(),
{
    if rest.len() == 0 {
        (true, Seq::<Detection>::empty(), 0 as nat)
    } else {
        let other = rest[0];
        if iou_exceeds(anchor.rect, other.rect, t) {
            if coins.len() > 0 && coins[0] {
                let r = scan_spec(anchor, rest.drop_first(), t, coins.drop_first());
                (r.0, seq![other] + r.1, (r.2 + 1) as nat)
            } else {
                (false, Seq::<Detection>::empty(), if coins.len() > 0 { 1 as nat } else { 0 as nat })
            }
        } else if rect_contains(anchor.rect, other.rect) {
            let r = scan_spec(anchor, rest.drop_first(), t, coins);
            (r.0, seq![other] + r.1, r.2)
        } else if rect_contains(other.rect, anchor.rect) {
            (false, Seq::<Detection>::empty(), 0 as nat)
        } else {
            scan_spec(anchor, rest.drop_first(), t, coins)
        }
    }
}

/// The whole algorithm, as a function of the input order and the coin
/// outcomes: scan the first element against the rest, remove the marked
/// values, keep or drop the anchor, and continue on what is left with the
/// unconsumed coins.
pub open spec fn dedup_spec(work: Seq<Detection>, t: Threshold, coins: Seq<bool>) -> Seq<
    Detection,
>
    decreases work.len(),
    via dedup_spec_decreases
{
    if work.len() == 0 {
        Seq::empty()
    } else {
        let scan = scan_spec(work[0], work.drop_first(), t, coins);
        let rest = without_marked(work.drop_first(), scan.1);
        let tail = dedup_spec(rest, t, coins.skip(scan.2 as int));
        if scan.0 {
            seq![work[0]] + tail
        } else {
            tail
        }
    }
}

#[via_fn]
proof fn dedup_spec_decreases(work: Seq<Detection>, t: Threshold, coins: Seq<bool>) {
    if work.len() != 0 {
        let scan = scan_spec(work[0], work.drop_first(), t, coins);
        lemma_without_marked_len(work.drop_first(), scan.1);
    }
}

/// Value equality of two detections: label text and rectangle both match.
pub fn det_eq(a: &Detection, b: &Detection) -> (r: bool)
    ensures
        r == spec_det_eq(*a, *b),
{
    a.label == b.label && a.rect == b.rect
}

fn matches_any(marks: &Vec<Detection>, d: &Detection) -> (r: bool)
    ensures
        r == marked(marks@, *d),
{
    let mut i: usize = 0;
    while i < marks.len()
        invariant
            i <= marks@.len(),
            forall|q: int| 0 <= q < i ==> !(#[trigger] spec_det_eq(marks@[q], *d)),
        decreases marks@.len() - i,
    {
        if det_eq(&marks[i], d) {
            proof {
                assert(spec_det_eq(marks@[i as int], *d));
            }
            return true;
        }
        i += 1;
    }
    false
}

/// Combines an already-scanned prefix (its marks and consumed coins) with the
/// scan of the remaining suffix.
spec fn scan_join(
    marks: Seq<Detection>,
    used: nat,
    r: (bool, Seq<Detection>, nat),
) -> (bool, Seq<Detection>, nat) {
    (r.0, marks + r.1, (used + r.2) as nat)
}

/// Filters `detections` so that no two survivors overlap above `threshold` or
/// enclose one another, resolving genuine overlap conflicts with a coin flip.
/// The result is exactly `dedup_spec` of the input for the sequence of coins
/// that were drawn; which sequence is drawn is not specified.
pub fn deduplicate(detections: Vec<Detection>, threshold: Threshold) -> (result: Vec<Detection>)
    requires
        threshold.wf(),
        forall|i: int| 0 <= i < detections@.len() ==> (#[trigger] detections@[i]).rect.wf(),
    ensures
        exists|coins: Seq<bool>| result@ == dedup_spec(detections@, threshold, coins),
        detections@.len() == 0 ==> result@ == Seq::<Detection>::empty(),
        no_conflicts(detections@, threshold) ==> result@ == detections@,
{
    let ghost input = detections@;
    let mut work = detections;
    let mut result: Vec<Detection> = Vec::new();
    let ghost mut log: Seq<bool> = Seq::empty();

    proof {
        assert forall|future: Seq<bool>|
            #[trigger] dedup_spec(input, threshold, log + future) == result@ + dedup_spec(
                work@,
                threshold,
                future,
            ) by {
            assert(log + future =~= future);
            assert(result@ + dedup_spec(work@, threshold, future) =~= dedup_spec(
                work@,
                threshold,
                future,
            ));
        }
    }

    while work.len() > 0
        invariant
            threshold.wf(),
            forall|i: int| 0 <= i < work@.len() ==> (#[trigger] work@[i]).rect.wf(),
            forall|future: Seq<bool>|
                #[trigger] dedup_spec(input, threshold, log + future) == result@ + dedup_spec(
                    work@,
                    threshold,
                    future,
                ),
        decreases work@.len(),
    {
        let ghost work0 = work@;
        let ghost log0 = log;
        let ghost result0 = result@;
        let anchor = work.remove(0);
        let ghost pre = work@;
        proof {
            assert(pre =~= work0.drop_first());
        }

        let mut keep = true;
        let mut marks: Vec<Detection> = Vec::new();
        let ghost mut inner_log: Seq<bool> = Seq::empty();
        let mut j: usize = 0;

        proof {
            assert forall|future: Seq<bool>|
                #[trigger] scan_spec(anchor, pre, threshold, inner_log + future) == scan_join(
                    marks@,
                    inner_log.len() as nat,
                    scan_spec(anchor, pre.skip(0), threshold, future),
                ) by {
                assert(inner_log + future =~= future);
                assert(pre.skip(0) =~= pre);
                let r = scan_spec(anchor, pre, threshold, future);
                assert(marks@ + r.1 =~= r.1);
            }
        }

        while j < work.len() && keep
            invariant
                threshold.wf(),
                anchor.rect.wf(),
                forall|i: int| 0 <= i < work@.len() ==> (#[trigger] work@[i]).rect.wf(),
                work@ == pre,
                j <= work@.len(),
                keep ==> forall|future: Seq<bool>|
                    #[trigger] scan_spec(anchor, pre, threshold, inner_log + future) == scan_join(
                        marks@,
                        inner_log.len() as nat,
                        scan_spec(anchor, pre.skip(j as int), threshold, future),
                    ),
                !keep ==> forall|future: Seq<bool>|
                    #[trigger] scan_spec(anchor, pre, threshold, inner_log + future) == (
                        false,
                        marks@,
                        inner_log.len() as nat,
                    ),
            decreases work@.len() - j + (if keep { 1int } else { 0int }),
        {
            let ghost pre_marks = marks@;
            let ghost pre_inner = inner_log;
            let ghost js = j as int;
            let conflicting = iou_gt(&anchor.rect, &work[j].rect, &threshold);
            if conflicting {
                let c = crate::rng::flip();
                if c {
                    let d = work[j].clone();
                    marks.push(d);
                    proof {
                        inner_log = pre_inner + seq![c];
                        assert forall|future: Seq<bool>|
                            #[trigger] scan_spec(anchor, pre, threshold, inner_log + future)
                                == scan_join(
                                marks@,
                                inner_log.len() as nat,
                                scan_spec(anchor, pre.skip(js + 1), threshold, future),
                            ) by {
                            let cf = seq![c] + future;
                            assert(inner_log + future =~= pre_inner + cf);
                            assert(scan_spec(anchor, pre, threshold, pre_inner + cf) == scan_join(
                                pre_marks,
                                pre_inner.len() as nat,
                                scan_spec(anchor, pre.skip(js), threshold, cf),
                            ));
                            let suffix = pre.skip(js);
                            assert(suffix[0] == pre[js]);
                            assert(cf.len() > 0 && cf[0] == c);
                            assert(suffix.drop_first() =~= pre.skip(js + 1));
                            assert(cf.drop_first() =~= future);
                            let r = scan_spec(anchor, pre.skip(js + 1), threshold, future);
                            assert(scan_spec(anchor, suffix, threshold, cf) == (
                                r.0,
                                seq![pre[js]] + r.1,
                                (r.2 + 1) as nat,
                            ));
                            assert(pre_marks + (seq![pre[js]] + r.1) =~= marks@ + r.1);
                        }
                    }
                    j += 1;
                } else {
                    keep = false;
                    proof {
                        inner_log = pre_inner + seq![c];
                        assert forall|future: Seq<bool>|
                            #[trigger] scan_spec(anchor, pre, threshold, inner_log + future) == (
                                false,
                                marks@,
                                inner_log.len() as nat,
                            ) by {
                            let cf = seq![c] + future;
                            assert(inner_log + future =~= pre_inner + cf);
                            assert(scan_spec(anchor, pre, threshold, pre_inner + cf) == scan_join(
                                pre_marks,
                                pre_inner.len() as nat,
                                scan_spec(anchor, pre.skip(js), threshold, cf),
                            ));
                            let suffix = pre.skip(js);
                            assert(suffix[0] == pre[js]);
                            assert(cf.len() > 0 && cf[0] == c);
                            assert(scan_spec(anchor, suffix, threshold, cf) == (
                                false,
                                Seq::<Detection>::empty(),
                                1 as nat,
                            ));
                            assert(pre_marks + Seq::<Detection>::empty() =~= pre_marks);
                        }
                    }
                }
            } else if contained(&anchor.rect, &work[j].rect) {
                let d = work[j].clone();
                marks.push(d);
                proof {
                    assert forall|future: Seq<bool>|
                        #[trigger] scan_spec(anchor, pre, threshold, inner_log + future)
                            == scan_join(
                            marks@,
                            inner_log.len() as nat,
                            scan_spec(anchor, pre.skip(js + 1), threshold, future),
                        ) by {
                        assert(scan_spec(anchor, pre, threshold, pre_inner + future) == scan_join(
                            pre_marks,
                            pre_inner.len() as nat,
                            scan_spec(anchor, pre.skip(js), threshold, future),
                        ));
                        let suffix = pre.skip(js);
                        assert(suffix[0] == pre[js]);
                        assert(suffix.drop_first() =~= pre.skip(js + 1));
                        let r = scan_spec(anchor, pre.skip(js + 1), threshold, future);
                        assert(scan_spec(anchor, suffix, threshold, future) == (
                            r.0,
                            seq![pre[js]] + r.1,
                            r.2,
                        ));
                        assert(pre_marks + (seq![pre[js]] + r.1) =~= marks@ + r.1);
                    }
                }
                j += 1;
            } else if contained(&work[j].rect, &anchor.rect) {
                keep = false;
                proof {
                    assert forall|future: Seq<bool>|
                        #[trigger] scan_spec(anchor, pre, threshold, inner_log + future) == (
                            false,
                            marks@,
                            inner_log.len() as nat,
                        ) by {
                        assert(scan_spec(anchor, pre, threshold, pre_inner + future) == scan_join(
                            pre_marks,
                            pre_inner.len() as nat,
                            scan_spec(anchor, pre.skip(js), threshold, future),
                        ));
                        let suffix = pre.skip(js);
                        assert(suffix[0] == pre[js]);
                        assert(scan_spec(anchor, suffix, threshold, future) == (
                            false,
                            Seq::<Detection>::empty(),
                            0 as nat,
                        ));
                        assert(pre_marks + Seq::<Detection>::empty() =~= pre_marks);
                    }
                }
            } else {
                proof {
                    assert forall|future: Seq<bool>|
                        #[trigger] scan_spec(anchor, pre, threshold, inner_log + future)
                            == scan_join(
                            marks@,
                            inner_log.len() as nat,
                            scan_spec(anchor, pre.skip(js + 1), threshold, future),
                        ) by {
                        assert(scan_spec(anchor, pre, threshold, pre_inner + future) == scan_join(
                            pre_marks,
                            pre_inner.len() as nat,
                            scan_spec(anchor, pre.skip(js), threshold, future),
                        ));
                        let suffix = pre.skip(js);
                        assert(suffix[0] == pre[js]);
                        assert(suffix.drop_first() =~= pre.skip(js + 1));
                        assert(scan_spec(anchor, suffix, threshold, future) == scan_spec(
                            anchor,
                            pre.skip(js + 1),
                            threshold,
                            future,
                        ));
                    }
                }
                j += 1;
            }
        }

        proof {
            if keep {
                assert forall|future: Seq<bool>|
                    #[trigger] scan_spec(anchor, pre, threshold, inner_log + future) == (
                        keep,
                        marks@,
                        inner_log.len() as nat,
                    ) by {
                    assert(pre.skip(j as int) =~= Seq::<Detection>::empty());
                    assert(scan_spec(anchor, Seq::<Detection>::empty(), threshold, future) == (
                        true,
                        Seq::<Detection>::empty(),
                        0 as nat,
                    ));
                    assert(marks@ + Seq::<Detection>::empty() =~= marks@);
                }
            }
        }

        let ghost scan_marks = marks@;
        let mut new_work: Vec<Detection> = Vec::new();
        let mut k: usize = 0;
        proof {
            assert(pre.skip(0) =~= pre);
            assert(new_work@ + without_marked(pre, scan_marks) =~= without_marked(
                pre,
                scan_marks,
            ));
        }
        while k < work.len()
            invariant
                work@ == pre,
                k <= pre.len(),
                marks@ == scan_marks,
                new_work@.len() <= k,
                forall|i: int| 0 <= i < work@.len() ==> (#[trigger] work@[i]).rect.wf(),
                forall|i: int| 0 <= i < new_work@.len() ==> (#[trigger] new_work@[i]).rect.wf(),
                without_marked(pre, scan_marks) == new_work@ + without_marked(
                    pre.skip(k as int),
                    scan_marks,
                ),
            decreases work@.len() - k,
        {
            let ghost ks = k as int;
            let ghost old_new = new_work@;
            let hit = matches_any(&marks, &work[k]);
            if !hit {
                let d = work[k].clone();
                new_work.push(d);
            }
            proof {
                let suffix = pre.skip(ks);
                assert(suffix[0] == pre[ks]);
                assert(suffix.drop_first() =~= pre.skip(ks + 1));
                if !hit {
                    assert(without_marked(suffix, scan_marks) == seq![pre[ks]] + without_marked(
                        pre.skip(ks + 1),
                        scan_marks,
                    ));
                    assert(old_new + (seq![pre[ks]] + without_marked(pre.skip(ks + 1), scan_marks))
                        =~= new_work@ + without_marked(pre.skip(ks + 1), scan_marks));
                } else {
                    assert(without_marked(suffix, scan_marks) == without_marked(
                        pre.skip(ks + 1),
                        scan_marks,
                    ));
                }
            }
            k += 1;
        }
        proof {
            assert(pre.skip(pre.len() as int) =~= Seq::<Detection>::empty());
            assert(new_work@ + Seq::<Detection>::empty() =~= new_work@);
            assert(new_work@ == without_marked(pre, scan_marks));
        }
        work = new_work;

        if keep {
            result.push(anchor);
        }
        proof {
            log = log0 + inner_log;
            assert forall|future: Seq<bool>|
                #[trigger] dedup_spec(input, threshold, log + future) == result@ + dedup_spec(
                    work@,
                    threshold,
                    future,
                ) by {
                let lf = inner_log + future;
                assert(log + future =~= log0 + lf);
                assert(dedup_spec(input, threshold, log0 + lf) == result0 + dedup_spec(
                    work0,
                    threshold,
                    lf,
                ));
                assert(work0[0] == anchor);
                assert(work0.drop_first() == pre);
                assert(scan_spec(anchor, pre, threshold, lf) == (
                    keep,
                    scan_marks,
                    inner_log.len() as nat,
                ));
                assert(lf.skip(inner_log.len() as int) =~= future);
                let tail = dedup_spec(work@, threshold, future);
                if keep {
                    assert(dedup_spec(work0, threshold, lf) == seq![anchor] + tail);
                    assert(result0 + (seq![anchor] + tail) =~= result@ + tail);
                } else {
                    assert(dedup_spec(work0, threshold, lf) == tail);
                }
            }
        }
    }

    proof {
        assert(log + Seq::<bool>::empty() =~= log);
        assert(dedup_spec(input, threshold, log) == result@ + dedup_spec(
            work@,
            threshold,
            Seq::<bool>::empty(),
        ));
        assert(result@ + Seq::<Detection>::empty() =~= result@);
        assert(result@ == dedup_spec(input, threshold, log));
        if no_conflicts(input, threshold) {
            lemma_no_conflicts_identity(input, threshold, log);
        }
    }
    result
}

/// No pair of distinct elements overlaps above the threshold or encloses the
/// other, in either direction.
pub open spec fn no_conflicts(dets: Seq<Detection>, t: Threshold) -> bool {
    forall|i: int, j: int|
        #![trigger dets[i], dets[j]]
        0 <= i < dets.len() && 0 <= j < dets.len() && i != j ==> {
            &&& !iou_exceeds(dets[i].rect, dets[j].rect, t)
            &&& !rect_contains(dets[i].rect, dets[j].rect)
        }
}

proof fn lemma_scan_no_conflicts(
    anchor: Detection,
    rest: Seq<Detection>,
    t: Threshold,
    coins: Seq<bool>,
)
    requires
        forall|q: int|
            0 <= q < rest.len() ==> {
                &&& !iou_exceeds(anchor.rect, (#[trigger] rest[q]).rect, t)
                &&& !rect_contains(anchor.rect, rest[q].rect)
                &&& !rect_contains(rest[q].rect, anchor.rect)
            },
    ensures
        scan_spec(anchor, rest, t, coins) == (true, Seq::<Detection>::empty(), 0 as nat),
    decreases rest.len(),
{
    if rest.len() > 0 {
        assert forall|q: int| 0 <= q < rest.drop_first().len() implies {
            &&& !iou_exceeds(anchor.rect, (#[trigger] rest.drop_first()[q]).rect, t)
            &&& !rect_contains(anchor.rect, rest.drop_first()[q].rect)
            &&& !rect_contains(rest.drop_first()[q].rect, anchor.rect)
        } by {
            assert(rest.drop_first()[q] == rest[q + 1]);
        }
        lemma_scan_no_conflicts(anchor, rest.drop_first(), t, coins);
    }
}

proof fn lemma_without_marked_none(work: Seq<Detection>)
    ensures
        without_marked(work, Seq::<Detection>::empty()) == work,
    decreases work.len(),
{
    if work.len() > 0 {
        lemma_without_marked_none(work.drop_first());
        assert(!marked(Seq::<Detection>::empty(), work[0]));
        assert(seq![work[0]] + work.drop_first() =~= work);
    }
}

/// Idempotence on conflict-free input: when no two elements overlap above the
/// threshold or enclose one another, every run returns the input unchanged,
/// in the same order, whatever coins are drawn and whatever the threshold is.
pub proof fn lemma_no_conflicts_identity(dets: Seq<Detection>, t: Threshold, coins: Seq<bool>)
    requires
        no_conflicts(dets, t),
    ensures
        dedup_spec(dets, t, coins) == dets,
    decreases dets.len(),
{
    if dets.len() > 0 {
        let anchor = dets[0];
        let rest = dets.drop_first();
        assert forall|q: int| 0 <= q < rest.len() implies {
            &&& !iou_exceeds(anchor.rect, (#[trigger] rest[q]).rect, t)
            &&& !rect_contains(anchor.rect, rest[q].rect)
            &&& !rect_contains(rest[q].rect, anchor.rect)
        } by {
            assert(rest[q] == dets[q + 1]);
            assert(dets[0] == anchor);
        }
        lemma_scan_no_conflicts(anchor, rest, t, coins);
        lemma_without_marked_none(rest);
        assert(coins.skip(0) =~= coins);
        assert forall|i: int, j: int|
            #![trigger rest[i], rest[j]]
            0 <= i < rest.len() && 0 <= j < rest.len() && i != j implies {
            &&& !iou_exceeds(rest[i].rect, rest[j].rect, t)
            &&& !rect_contains(rest[i].rect, rest[j].rect)
        } by {
            assert(rest[i] == dets[i + 1]);
            assert(rest[j] == dets[j + 1]);
        }
        lemma_no_conflicts_identity(rest, t, coins);
        assert(seq![dets[0]] + rest =~= dets);
    }
}

/// A genuinely conflicting pair: when the overlap of `a` and `b` exceeds the
/// threshold, every run on `[a, b]` keeps exactly one of the two — which one
/// depends on the coin, but never both and never neither.
pub proof fn lemma_conflict_pair_one_survivor(
    a: Detection,
    b: Detection,
    t: Threshold,
    coins: Seq<bool>,
)
    requires
        iou_exceeds(a.rect, b.rect, t),
    ensures
        dedup_spec(seq![a, b], t, coins) == seq![a] || dedup_spec(seq![a, b], t, coins) == seq![
            b,
        ],
{
    let input = seq![a, b];
    let rest = seq![b];
    reveal_with_fuel(dedup_spec, 4);
    assert(input.drop_first() =~= rest);
    assert(rest[0] == b);
    assert(rest.drop_first() =~= Seq::<Detection>::empty());
    if coins.len() > 0 && coins[0] {
        assert(scan_spec(a, Seq::<Detection>::empty(), t, coins.drop_first()) == (
            true,
            Seq::<Detection>::empty(),
            0 as nat,
        ));
        assert(scan_spec(a, rest, t, coins) == (
            true,
            seq![b] + Seq::<Detection>::empty(),
            1 as nat,
        ));
        let m = seq![b] + Seq::<Detection>::empty();
        assert(spec_det_eq(m[0], b));
        assert(marked(m, b));
        assert(without_marked(rest, m) == without_marked(Seq::<Detection>::empty(), m));
        assert(dedup_spec(input, t, coins) == seq![a] + Seq::<Detection>::empty());
        assert(seq![a] + Seq::<Detection>::empty() =~= seq![a]);
    } else {
        assert(scan_spec(a, rest, t, coins).0 == false);
        assert(scan_spec(a, rest, t, coins).1 == Seq::<Detection>::empty());
        lemma_without_marked_none(rest);
        let tail_coins = coins.skip(scan_spec(a, rest, t, coins).2 as int);
        assert(dedup_spec(input, t, coins) == dedup_spec(rest, t, tail_coins));
        assert(scan_spec(b, Seq::<Detection>::empty(), t, tail_coins) == (
            true,
            Seq::<Detection>::empty(),
            0 as nat,
        ));
        lemma_without_marked_none(Seq::<Detection>::empty());
        assert(dedup_spec(rest, t, tail_coins) == seq![b] + Seq::<Detection>::empty());
        assert(seq![b] + Seq::<Detection>::empty() =~= seq![b]);
    }
}

/// A containment chain: three nested rectangles, the first enclosing the
/// second, the second enclosing the third, with no overlap above the
/// threshold.  Only the outermost survives, whatever coins are drawn.
pub proof fn lemma_containment_chain_single_survivor(
    a: Detection,
    b: Detection,
    c: Detection,
    t: Threshold,
    coins: Seq<bool>,
)
    requires
        rect_contains(a.rect, b.rect),
        rect_contains(b.rect, c.rect),
        !iou_exceeds(a.rect, b.rect, t),
        !iou_exceeds(a.rect, c.rect, t),
    ensures
        dedup_spec(seq![a, b, c], t, coins) == seq![a],
{
    let input = seq![a, b, c];
    let rest = seq![b, c];
    let rest2 = seq![c];
    reveal_with_fuel(dedup_spec, 4);
    assert(input.drop_first() =~= rest);
    assert(rest[0] == b);
    assert(rest.drop_first() =~= rest2);
    assert(rest2[0] == c);
    assert(rest2.drop_first() =~= Seq::<Detection>::empty());
    assert(rect_contains(a.rect, c.rect));
    assert(scan_spec(a, Seq::<Detection>::empty(), t, coins) == (
        true,
        Seq::<Detection>::empty(),
        0 as nat,
    ));
    assert(scan_spec(a, rest2, t, coins) == (true, seq![c] + Seq::<Detection>::empty(), 0 as nat));
    assert(scan_spec(a, rest, t, coins) == (
        true,
        seq![b] + (seq![c] + Seq::<Detection>::empty()),
        0 as nat,
    ));
    let m = seq![b] + (seq![c] + Seq::<Detection>::empty());
    assert(m =~= seq![b, c]);
    assert(spec_det_eq(m[0], b));
    assert(marked(m, b));
    assert(spec_det_eq(m[1], c));
    assert(marked(m, c));
    assert(without_marked(rest, m) == without_marked(rest2, m));
    assert(without_marked(rest2, m) == without_marked(Seq::<Detection>::empty(), m));
    assert(dedup_spec(input, t, coins) == seq![a] + Seq::<Detection>::empty());
    assert(seq![a] + Seq::<Detection>::empty() =~= seq![a]);
}

/// The deduplication pass under its host-facing name.
pub fn structure(detections: Vec<Detection>, iou_threshold: Threshold) -> (result: Vec<
    Detection,
>)
    requires
        iou_threshold.wf(),
        forall|i: int| 0 <= i < detections@.len() ==> (#[trigger] detections@[i]).rect.wf(),
    ensures
        exists|coins: Seq<bool>| result@ == dedup_spec(detections@, iou_threshold, coins),
        detections@.len() == 0 ==> result@ == Seq::<Detection>::empty(),
        no_conflicts(detections@, iou_threshold) ==> result@ == detections@,
{
    deduplicate(detections, iou_threshold)
}

} // verus!
