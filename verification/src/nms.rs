//! Non-maximum suppression: a stable sort by descending score followed
//! by greedy removal of every candidate that overlaps an already kept,
//! higher-scoring one beyond the threshold.
//!
//! The whole pass is described by two spec functions —
//! [`stable_sort_desc`] for the ordering and [`nms_filter`] for the
//! suppression — and the executable [`nms`] returns exactly their
//! composition.  The laws at the end pin down the classic properties:
//! kept boxes never overlap beyond the threshold (measured from the
//! higher-scoring one), the output is never longer than the input, and
//! running the pass twice changes nothing.

use vstd::prelude::*;

verus! {

use crate::bbox::{BoundingBox, iou_spec, calculate_iou};
use vstd::pervasive::VecAdditionalExecFns;

/// Place `b` after every element that scores strictly higher, before
/// the first that scores no higher; on a descending run this is the
/// stable insertion position.
pub open spec fn insert_desc(s: Seq<BoundingBox>, b: BoundingBox) -> Seq<BoundingBox>
    decreases s.len(),
{
    if s.len() == 0 {
        seq![b]
    } else if s[0].score > b.score {
        seq![s[0]] + insert_desc(s.drop_first(), b)
    } else {
        seq![b] + s
    }
}

/// Sort by descending score, keeping the original relative order of
/// equal scores.
pub open spec fn stable_sort_desc(s: Seq<BoundingBox>) -> Seq<BoundingBox>
    decreases s.len(),
{
    if s.len() == 0 {
        s
    } else {
        insert_desc(stable_sort_desc(s.drop_first()), s[0])
    }
}

/// Scores never increase along the sequence.
pub open spec fn sorted_desc(s: Seq<BoundingBox>) -> bool {
    forall|i: int, j: int| 0 <= i < j < s.len() ==> s[i].score >= s[j].score
}

/// Every element satisfies the box invariant.
pub open spec fn all_valid(s: Seq<BoundingBox>) -> bool {
    forall|i: int| 0 <= i < s.len() ==> s[i].valid()
}

/// Remove from `s` every box whose overlap with the kept box `k`
/// strictly exceeds the threshold.
pub open spec fn erase_over(s: Seq<BoundingBox>, k: BoundingBox, thr: int) -> Seq<BoundingBox>
    decreases s.len(),
{
    if s.len() == 0 {
        s
    } else if iou_spec(k, s[0]) > thr {
        erase_over(s.drop_first(), k, thr)
    } else {
        seq![s[0]] + erase_over(s.drop_first(), k, thr)
    }
}

/// Erasing never lengthens a sequence.
pub proof fn lemma_erase_over_len(s: Seq<BoundingBox>, k: BoundingBox, thr: int)
    ensures
        erase_over(s, k, thr).len() <= s.len(),
    decreases s.len(),
{
    if s.len() > 0 {
        lemma_erase_over_len(s.drop_first(), k, thr);
    }
}

/// Greedy suppression of a score-ordered candidate list: keep the
/// head, erase everything it overlaps too much, and continue with the
/// remainder.
pub open spec fn nms_filter(s: Seq<BoundingBox>, thr: int) -> Seq<BoundingBox>
    decreases s.len(),
    via nms_filter_decreases
{
    if s.len() == 0 {
        s
    } else {
        seq![s[0]] + nms_filter(erase_over(s.drop_first(), s[0], thr), thr)
    }
}

#[via_fn]
proof fn nms_filter_decreases(s: Seq<BoundingBox>, thr: int) {
    if s.len() > 0 {
        lemma_erase_over_len(s.drop_first(), s[0], thr);
    }
}

/// What survives the erasure was already present, and overlaps the
/// kept box by at most the threshold.
proof fn lemma_erase_over_elems(s: Seq<BoundingBox>, k: BoundingBox, thr: int, x: BoundingBox)
    requires
        erase_over(s, k, thr).contains(x),
    ensures
        s.contains(x),
        iou_spec(k, x) <= thr,
    decreases s.len(),
{
    if s.len() > 0 {
        let rest = erase_over(s.drop_first(), k, thr);
        if iou_spec(k, s[0]) > thr {
            lemma_erase_over_elems(s.drop_first(), k, thr, x);
        } else {
            if x == s[0] {
            } else {
                assert(rest.contains(x)) by {
                    let i = choose|i: int|
                        0 <= i < erase_over(s, k, thr).len() && erase_over(s, k, thr)[i] == x;
                    assert(rest[i - 1] == x);
                }
                lemma_erase_over_elems(s.drop_first(), k, thr, x);
            }
        }
        if s.drop_first().contains(x) {
            let i = choose|i: int| 0 <= i < s.drop_first().len() && s.drop_first()[i] == x;
            assert(s[i + 1] == x);
        }
    }
}

/// What the suppression keeps was among the candidates.
proof fn lemma_nms_filter_elems(s: Seq<BoundingBox>, thr: int, x: BoundingBox)
    requires
        nms_filter(s, thr).contains(x),
    ensures
        s.contains(x),
    decreases s.len(),
{
    if s.len() > 0 {
        let erased = erase_over(s.drop_first(), s[0], thr);
        lemma_erase_over_len(s.drop_first(), s[0], thr);
        if x == s[0] {
            assert(s.contains(x)) by {
                assert(s[0] == x);
            }
        } else {
            let out = nms_filter(s, thr);
            let rest = nms_filter(erased, thr);
            assert(rest.contains(x)) by {
                let i = choose|i: int| 0 <= i < out.len() && out[i] == x;
                assert(rest[i - 1] == x);
            }
            lemma_nms_filter_elems(erased, thr, x);
            lemma_erase_over_elems(s.drop_first(), s[0], thr, x);
            let i = choose|i: int| 0 <= i < s.drop_first().len() && s.drop_first()[i] == x;
            assert(s[i + 1] == x);
        }
    }
}

/// The suppression output is never longer than its input.
pub proof fn lemma_nms_filter_len(s: Seq<BoundingBox>, thr: int)
    ensures
        nms_filter(s, thr).len() <= s.len(),
    decreases s.len(),
{
    if s.len() > 0 {
        let erased = erase_over(s.drop_first(), s[0], thr);
        lemma_erase_over_len(s.drop_first(), s[0], thr);
        lemma_nms_filter_len(erased, thr);
    }
}

/// No two kept boxes overlap beyond the threshold, measured from the
/// earlier (higher-scoring) of the pair.
pub proof fn lemma_nms_filter_pairwise(s: Seq<BoundingBox>, thr: int)
    ensures
        forall|i: int, j: int|
            0 <= i < j < nms_filter(s, thr).len() ==> iou_spec(
                nms_filter(s, thr)[i],
                nms_filter(s, thr)[j],
            ) <= thr,
    decreases s.len(),
{
    if s.len() > 0 {
        let out = nms_filter(s, thr);
        let erased = erase_over(s.drop_first(), s[0], thr);
        let rest = nms_filter(erased, thr);
        lemma_erase_over_len(s.drop_first(), s[0], thr);
        lemma_nms_filter_pairwise(erased, thr);
        assert forall|i: int, j: int| 0 <= i < j < out.len() implies iou_spec(
            out[i],
            out[j],
        ) <= thr by {
            if i == 0 {
                assert(rest.contains(out[j])) by {
                    assert(rest[j - 1] == out[j]);
                }
                lemma_nms_filter_elems(erased, thr, out[j]);
                lemma_erase_over_elems(s.drop_first(), s[0], thr, out[j]);
            } else {
                assert(iou_spec(rest[i - 1], rest[j - 1]) <= thr);
            }
        }
    }
}

/// Membership in the tail implies membership in the whole sequence.
proof fn lemma_tail_contains(s: Seq<BoundingBox>, x: BoundingBox)
    requires
        s.len() > 0,
        s.drop_first().contains(x),
    ensures
        s.contains(x),
{
    let i = choose|i: int| 0 <= i < s.drop_first().len() && s.drop_first()[i] == x;
    assert(s[i + 1] == x);
}

/// Insertion only adds the inserted element.
proof fn lemma_insert_desc_elems(s: Seq<BoundingBox>, b: BoundingBox, x: BoundingBox)
    requires
        insert_desc(s, b).contains(x),
    ensures
        s.contains(x) || x == b,
    decreases s.len(),
{
    let out = insert_desc(s, b);
    if s.len() == 0 {
        assert(out[0] == b);
    } else if s[0].score > b.score {
        if x != s[0] {
            let rest = insert_desc(s.drop_first(), b);
            assert(rest.contains(x)) by {
                let i = choose|i: int| 0 <= i < out.len() && out[i] == x;
                assert(rest[i - 1] == x);
            }
            lemma_insert_desc_elems(s.drop_first(), b, x);
            if s.drop_first().contains(x) {
                lemma_tail_contains(s, x);
            }
        } else {
            assert(s.contains(x)) by {
                assert(s[0] == x);
            }
        }
    } else {
        if x != b {
            let i = choose|i: int| 0 <= i < out.len() && out[i] == x;
            assert(s[i - 1] == x);
        }
    }
}

/// Sorting only rearranges: every output element was an input element.
proof fn lemma_stable_sort_elems(s: Seq<BoundingBox>, x: BoundingBox)
    requires
        stable_sort_desc(s).contains(x),
    ensures
        s.contains(x),
    decreases s.len(),
{
    if s.len() > 0 {
        lemma_insert_desc_elems(stable_sort_desc(s.drop_first()), s[0], x);
        if stable_sort_desc(s.drop_first()).contains(x) {
            lemma_stable_sort_elems(s.drop_first(), x);
            lemma_tail_contains(s, x);
        } else {
            assert(s[0] == x);
        }
    }
}

/// Insertion adds exactly one element to the length.
proof fn lemma_insert_desc_len(s: Seq<BoundingBox>, b: BoundingBox)
    ensures
        insert_desc(s, b).len() == s.len() + 1,
    decreases s.len(),
{
    if s.len() > 0 && s[0].score > b.score {
        lemma_insert_desc_len(s.drop_first(), b);
    }
}

/// Sorting preserves the length.
pub proof fn lemma_stable_sort_len(s: Seq<BoundingBox>)
    ensures
        stable_sort_desc(s).len() == s.len(),
    decreases s.len(),
{
    if s.len() > 0 {
        lemma_stable_sort_len(s.drop_first());
        lemma_insert_desc_len(stable_sort_desc(s.drop_first()), s[0]);
    }
}

/// Inserting into a descending run yields a descending run.
proof fn lemma_insert_desc_sorted(s: Seq<BoundingBox>, b: BoundingBox)
    requires
        sorted_desc(s),
    ensures
        sorted_desc(insert_desc(s, b)),
    decreases s.len(),
{
    let out = insert_desc(s, b);
    if s.len() == 0 {
    } else if s[0].score > b.score {
        assert(sorted_desc(s.drop_first()));
        lemma_insert_desc_sorted(s.drop_first(), b);
        let rest = insert_desc(s.drop_first(), b);
        assert forall|i: int, j: int| 0 <= i < j < out.len() implies out[i].score
            >= out[j].score by {
            if i == 0 {
                assert(rest.contains(out[j])) by {
                    assert(rest[j - 1] == out[j]);
                }
                lemma_insert_desc_elems(s.drop_first(), b, out[j]);
                if s.drop_first().contains(out[j]) {
                    let w = choose|w: int|
                        0 <= w < s.drop_first().len() && s.drop_first()[w] == out[j];
                    assert(s[w + 1] == out[j]);
                }
            } else {
                assert(rest[i - 1].score >= rest[j - 1].score);
            }
        }
    } else {
        assert forall|i: int, j: int| 0 <= i < j < out.len() implies out[i].score
            >= out[j].score by {
            if i == 0 {
                assert(out[j] == s[j - 1]);
                if j - 1 > 0 {
                    assert(s[0].score >= s[j - 1].score);
                }
            } else {
                assert(out[i] == s[i - 1] && out[j] == s[j - 1]);
            }
        }
    }
}

/// The stable sort sorts.
pub proof fn lemma_stable_sort_sorted(s: Seq<BoundingBox>)
    ensures
        sorted_desc(stable_sort_desc(s)),
    decreases s.len(),
{
    if s.len() > 0 {
        lemma_stable_sort_sorted(s.drop_first());
        lemma_insert_desc_sorted(stable_sort_desc(s.drop_first()), s[0]);
    }
}

/// A list already in descending order is left exactly as it is.
pub proof fn lemma_stable_sort_of_sorted(s: Seq<BoundingBox>)
    requires
        sorted_desc(s),
    ensures
        stable_sort_desc(s) == s,
    decreases s.len(),
{
    if s.len() > 0 {
        assert(sorted_desc(s.drop_first()));
        lemma_stable_sort_of_sorted(s.drop_first());
        let tail = s.drop_first();
        if tail.len() == 0 {
            assert(insert_desc(tail, s[0]) =~= s);
        } else {
            assert(s[0].score >= s[1].score);
            assert(tail[0].score <= s[0].score);
            assert(insert_desc(tail, s[0]) == seq![s[0]] + tail);
            assert(seq![s[0]] + tail =~= s);
        }
    }
}

/// Erasure keeps a descending run descending.
proof fn lemma_erase_over_sorted(s: Seq<BoundingBox>, k: BoundingBox, thr: int)
    requires
        sorted_desc(s),
    ensures
        sorted_desc(erase_over(s, k, thr)),
    decreases s.len(),
{
    if s.len() > 0 {
        assert(sorted_desc(s.drop_first()));
        lemma_erase_over_sorted(s.drop_first(), k, thr);
        let out = erase_over(s, k, thr);
        let rest = erase_over(s.drop_first(), k, thr);
        if !(iou_spec(k, s[0]) > thr) {
            assert forall|i: int, j: int| 0 <= i < j < out.len() implies out[i].score
                >= out[j].score by {
                if i == 0 {
                    assert(rest.contains(out[j])) by {
                        assert(rest[j - 1] == out[j]);
                    }
                    lemma_erase_over_elems(s.drop_first(), k, thr, out[j]);
                    let w = choose|w: int|
                        0 <= w < s.drop_first().len() && s.drop_first()[w] == out[j];
                    assert(s[w + 1] == out[j]);
                } else {
                    assert(rest[i - 1].score >= rest[j - 1].score);
                }
            }
        }
    }
}

/// Suppression of a descending run yields a descending run.
pub proof fn lemma_nms_filter_sorted(s: Seq<BoundingBox>, thr: int)
    requires
        sorted_desc(s),
    ensures
        sorted_desc(nms_filter(s, thr)),
    decreases s.len(),
{
    if s.len() > 0 {
        let erased = erase_over(s.drop_first(), s[0], thr);
        lemma_erase_over_len(s.drop_first(), s[0], thr);
        assert(sorted_desc(s.drop_first()));
        lemma_erase_over_sorted(s.drop_first(), s[0], thr);
        lemma_nms_filter_sorted(erased, thr);
        let out = nms_filter(s, thr);
        let rest = nms_filter(erased, thr);
        assert forall|i: int, j: int| 0 <= i < j < out.len() implies out[i].score
            >= out[j].score by {
            if i == 0 {
                assert(rest.contains(out[j])) by {
                    assert(rest[j - 1] == out[j]);
                }
                lemma_nms_filter_elems(erased, thr, out[j]);
                lemma_erase_over_elems(s.drop_first(), s[0], thr, out[j]);
                let w = choose|w: int| 0 <= w < s.drop_first().len() && s.drop_first()[w] == out[j];
                assert(s[w + 1] == out[j]);
            } else {
                assert(rest[i - 1].score >= rest[j - 1].score);
            }
        }
    }
}

/// Erasing is a no-op when nothing overlaps the kept box too much.
proof fn lemma_erase_over_noop(s: Seq<BoundingBox>, k: BoundingBox, thr: int)
    requires
        forall|i: int| 0 <= i < s.len() ==> iou_spec(k, s[i]) <= thr,
    ensures
        erase_over(s, k, thr) == s,
    decreases s.len(),
{
    if s.len() > 0 {
        assert(iou_spec(k, s[0]) <= thr);
        lemma_erase_over_noop(s.drop_first(), k, thr);
        assert(seq![s[0]] + s.drop_first() =~= s);
    }
}

/// Suppression is a no-op on a list whose pairs already respect the
/// threshold.
proof fn lemma_nms_filter_of_pairwise(s: Seq<BoundingBox>, thr: int)
    requires
        forall|i: int, j: int| 0 <= i < j < s.len() ==> iou_spec(s[i], s[j]) <= thr,
    ensures
        nms_filter(s, thr) == s,
    decreases s.len(),
{
    if s.len() > 0 {
        let tail = s.drop_first();
        assert forall|i: int| 0 <= i < tail.len() implies iou_spec(s[0], tail[i]) <= thr by {
            assert(iou_spec(s[0], s[i + 1]) <= thr);
        }
        lemma_erase_over_noop(tail, s[0], thr);
        assert forall|i: int, j: int| 0 <= i < j < tail.len() implies iou_spec(
            tail[i],
            tail[j],
        ) <= thr by {
            assert(iou_spec(s[i + 1], s[j + 1]) <= thr);
        }
        lemma_nms_filter_of_pairwise(tail, thr);
        assert(seq![s[0]] + tail =~= s);
    }
}

/// Running the whole pass (sort, then suppress) a second time returns
/// the first result unchanged.
pub proof fn lemma_nms_idempotent(s: Seq<BoundingBox>, thr: int)
    ensures
        nms_filter(stable_sort_desc(nms_filter(stable_sort_desc(s), thr)), thr) == nms_filter(
            stable_sort_desc(s),
            thr,
        ),
{
    let once = nms_filter(stable_sort_desc(s), thr);
    lemma_stable_sort_sorted(s);
    lemma_nms_filter_sorted(stable_sort_desc(s), thr);
    lemma_stable_sort_of_sorted(once);
    lemma_nms_filter_pairwise(stable_sort_desc(s), thr);
    lemma_nms_filter_of_pairwise(once, thr);
}

/// The elements of `s` between `a` and `b` whose suppression flag is
/// not set, in order.
pub open spec fn unsup_between(s: Seq<BoundingBox>, f: Seq<bool>, a: int, b: int) -> Seq<
    BoundingBox,
>
    decreases b - a,
{
    if a >= b {
        Seq::empty()
    } else if f[a] {
        unsup_between(s, f, a + 1, b)
    } else {
        seq![s[a]] + unsup_between(s, f, a + 1, b)
    }
}

/// Extending the scanned range by one index appends that index's
/// contribution.
proof fn lemma_unsup_snoc(s: Seq<BoundingBox>, f: Seq<bool>, a: int, b: int)
    requires
        a <= b,
    ensures
        unsup_between(s, f, a, b + 1) == unsup_between(s, f, a, b) + (if f[b] {
            Seq::<BoundingBox>::empty()
        } else {
            seq![s[b]]
        }),
    decreases b - a,
{
    let bit = if f[b] {
        Seq::<BoundingBox>::empty()
    } else {
        seq![s[b]]
    };
    if a == b {
        assert(unsup_between(s, f, a, b) =~= Seq::<BoundingBox>::empty());
        assert(unsup_between(s, f, b + 1, b + 1) =~= Seq::<BoundingBox>::empty());
        assert(unsup_between(s, f, a, b + 1) =~= bit);
        assert(Seq::<BoundingBox>::empty() + bit =~= bit);
    } else {
        lemma_unsup_snoc(s, f, a + 1, b);
        if !f[a] {
            assert(seq![s[a]] + (unsup_between(s, f, a + 1, b) + bit) =~= (seq![s[a]]
                + unsup_between(s, f, a + 1, b)) + bit);
        }
    }
}

/// The unsuppressed run depends only on the flags inside the range.
proof fn lemma_unsup_agree(s: Seq<BoundingBox>, f1: Seq<bool>, f2: Seq<bool>, a: int, b: int)
    requires
        forall|j: int| a <= j < b ==> f1[j] == f2[j],
    ensures
        unsup_between(s, f1, a, b) == unsup_between(s, f2, a, b),
    decreases b - a,
{
    if a < b {
        lemma_unsup_agree(s, f1, f2, a + 1, b);
    }
}

/// Erasure distributes over concatenation.
proof fn lemma_erase_over_concat(p: Seq<BoundingBox>, q: Seq<BoundingBox>, k: BoundingBox, thr: int)
    ensures
        erase_over(p + q, k, thr) == erase_over(p, k, thr) + erase_over(q, k, thr),
    decreases p.len(),
{
    if p.len() == 0 {
        assert(p + q =~= q);
        assert(erase_over(p, k, thr) + erase_over(q, k, thr) =~= erase_over(q, k, thr));
    } else {
        assert((p + q)[0] == p[0]);
        assert((p + q).drop_first() =~= p.drop_first() + q);
        lemma_erase_over_concat(p.drop_first(), q, k, thr);
        if !(iou_spec(k, p[0]) > thr) {
            assert(seq![p[0]] + (erase_over(p.drop_first(), k, thr) + erase_over(q, k, thr))
                =~= (seq![p[0]] + erase_over(p.drop_first(), k, thr)) + erase_over(q, k, thr));
        }
    }
}

/// Erasing a single box keeps or drops it by the threshold test.
proof fn lemma_erase_over_single(x: BoundingBox, k: BoundingBox, thr: int)
    ensures
        iou_spec(k, x) > thr ==> erase_over(seq![x], k, thr) == Seq::<BoundingBox>::empty(),
        iou_spec(k, x) <= thr ==> erase_over(seq![x], k, thr) == seq![x],
{
    assert(seq![x].drop_first() =~= Seq::<BoundingBox>::empty());
    assert(erase_over(Seq::<BoundingBox>::empty(), k, thr) == Seq::<BoundingBox>::empty());
    assert(seq![x][0] == x);
    if iou_spec(k, x) <= thr {
        assert(seq![x] + Seq::<BoundingBox>::empty() =~= seq![x]);
    }
}

/// With no flag set, the unsuppressed run from `a` is the whole tail.
proof fn lemma_unsup_all_false(s: Seq<BoundingBox>, f: Seq<bool>, a: int)
    requires
        0 <= a <= s.len(),
        forall|j: int| a <= j < s.len() ==> !f[j],
    ensures
        unsup_between(s, f, a, s.len() as int) == s.skip(a),
    decreases s.len() - a,
{
    if a == s.len() {
        assert(s.skip(a) =~= Seq::<BoundingBox>::empty());
    } else {
        lemma_unsup_all_false(s, f, a + 1);
        assert(seq![s[a]] + s.skip(a + 1) =~= s.skip(a));
    }
}

/// Where the executable scan stops is exactly where the spec-level
/// insertion puts the new element.
proof fn lemma_insert_desc_at(s: Seq<BoundingBox>, b: BoundingBox, i: int)
    requires
        0 <= i <= s.len(),
        forall|k2: int| 0 <= k2 < i ==> s[k2].score > b.score,
        i == s.len() || s[i].score <= b.score,
    ensures
        insert_desc(s, b) == s.insert(i, b),
    decreases s.len(),
{
    if i == 0 {
        if s.len() == 0 {
            assert(insert_desc(s, b) =~= s.insert(0, b));
        } else {
            assert(seq![b] + s =~= s.insert(0, b));
        }
    } else {
        assert(s[0].score > b.score);
        assert forall|k2: int| 0 <= k2 < i - 1 implies s.drop_first()[k2].score > b.score by {
            assert(s[k2 + 1].score > b.score);
        }
        lemma_insert_desc_at(s.drop_first(), b, i - 1);
        assert(seq![s[0]] + s.drop_first().insert(i - 1, b) =~= s.insert(i, b));
    }
}

/// One step of the suppression scan: extending the processed range by
/// one index keeps the correspondence between the surviving flags and
/// the spec-level erasure, whichever way the index was decided.
proof fn lemma_suppress_step(
    sorted: Seq<BoundingBox>,
    f0: Seq<bool>,
    fpre: Seq<bool>,
    fl: Seq<bool>,
    kbox: BoundingBox,
    thr: int,
    ih: int,
    il: int,
)
    requires
        0 <= ih < il < sorted.len(),
        f0.len() == sorted.len(),
        fpre.len() == sorted.len(),
        fl.len() == sorted.len(),
        forall|j: int| il <= j < sorted.len() ==> fpre[j] == f0[j],
        unsup_between(sorted, fpre, ih + 1, il) == erase_over(
            unsup_between(sorted, f0, ih + 1, il),
            kbox,
            thr,
        ),
        f0[il] ==> fl == fpre,
        !f0[il] && iou_spec(kbox, sorted[il]) > thr ==> fl == fpre.update(il, true),
        !f0[il] && iou_spec(kbox, sorted[il]) <= thr ==> fl == fpre,
    ensures
        unsup_between(sorted, fl, ih + 1, il + 1) == erase_over(
            unsup_between(sorted, f0, ih + 1, il + 1),
            kbox,
            thr,
        ),
        forall|j: int| il + 1 <= j < sorted.len() ==> fl[j] == f0[j],
{
    let here = sorted[il];
    lemma_unsup_agree(sorted, fpre, fl, ih + 1, il);
    lemma_unsup_snoc(sorted, fl, ih + 1, il);
    lemma_unsup_snoc(sorted, f0, ih + 1, il);
    let pre0 = unsup_between(sorted, f0, ih + 1, il);
    let bit0 = if f0[il] {
        Seq::<BoundingBox>::empty()
    } else {
        seq![here]
    };
    lemma_erase_over_concat(pre0, bit0, kbox, thr);
    lemma_erase_over_single(here, kbox, thr);
    assert(erase_over(Seq::<BoundingBox>::empty(), kbox, thr) == Seq::<BoundingBox>::empty());
    let epre = erase_over(pre0, kbox, thr);
    assert(unsup_between(sorted, fl, ih + 1, il) == epre);
    if f0[il] {
        assert(fl[il]);
        assert(unsup_between(sorted, fl, ih + 1, il + 1) =~= epre);
        assert(erase_over(unsup_between(sorted, f0, ih + 1, il + 1), kbox, thr) =~= epre);
    } else if iou_spec(kbox, here) > thr {
        assert(fl[il]);
        assert(erase_over(bit0, kbox, thr) == Seq::<BoundingBox>::empty());
        assert(unsup_between(sorted, fl, ih + 1, il + 1) =~= epre);
        assert(erase_over(unsup_between(sorted, f0, ih + 1, il + 1), kbox, thr) =~= epre);
    } else {
        assert(!fl[il]);
        assert(erase_over(bit0, kbox, thr) == seq![here]);
        assert(unsup_between(sorted, fl, ih + 1, il + 1) =~= epre + seq![here]);
        assert(erase_over(unsup_between(sorted, f0, ih + 1, il + 1), kbox, thr) =~= epre
            + seq![here]);
    }
}

/// Insert a box into a score-descending vector at its stable position.
fn insert_sorted(out: &mut Vec<BoundingBox>, b: BoundingBox)
    ensures
        final(out)@ == insert_desc(old(out)@, b),
{
    let mut idx: usize = 0;
    while idx < out.len() && out[idx].score > b.score
        invariant
            idx <= out@.len(),
            out@ == old(out)@,
            forall|k: int| 0 <= k < idx ==> out@[k].score > b.score,
        decreases out@.len() - idx,
    {
        idx = idx + 1;
    }
    proof {
        lemma_insert_desc_at(out@, b, idx as int);
    }
    out.insert(idx, b);
}

/// Non-maximum suppression.  Sorts the candidate list in place by
/// descending score (stable), then walks it greedily: each box not yet
/// suppressed is kept, and suppresses every later, not yet suppressed
/// box whose overlap with it strictly exceeds the threshold.  Returns
/// the kept boxes in visiting order; the result is exactly
/// `nms_filter` of the sorted list and is never longer than the input.
pub fn nms(bbox_list: &mut Vec<BoundingBox>, iou_threshold: i64) -> (r: Vec<BoundingBox>)
    requires
        all_valid(old(bbox_list)@),
    ensures
        final(bbox_list)@ == stable_sort_desc(old(bbox_list)@),
        r@ == nms_filter(stable_sort_desc(old(bbox_list)@), iou_threshold as int),
        r@.len() <= old(bbox_list)@.len(),
        all_valid(r@),
        sorted_desc(r@),
        forall|i: int, j: int|
            0 <= i < j < r@.len() ==> iou_spec(r@[i], r@[j]) <= iou_threshold as int,
{
    let ghost orig = bbox_list@;
    let ghost thr = iou_threshold as int;
    let n = bbox_list.len();
    let mut sorted_v: Vec<BoundingBox> = Vec::new();
    let mut i: usize = n;
    proof {
        assert(orig.skip(n as int) =~= Seq::<BoundingBox>::empty());
    }
    while i > 0
        invariant
            i <= n,
            bbox_list@ == orig,
            n == orig.len(),
            sorted_v@ == stable_sort_desc(orig.skip(i as int)),
        decreases i,
    {
        i = i - 1;
        let b = bbox_list[i].clone();
        proof {
            assert(orig.skip(i as int).drop_first() =~= orig.skip(i as int + 1));
            assert(orig.skip(i as int)[0] == orig[i as int]);
        }
        insert_sorted(&mut sorted_v, b);
    }
    proof {
        assert(orig.skip(0) =~= orig);
    }
    *bbox_list = sorted_v;
    let ghost sorted = bbox_list@;
    proof {
        lemma_stable_sort_len(orig);
        assert forall|k: int| 0 <= k < sorted.len() implies sorted[k].valid() by {
            assert(sorted.contains(sorted[k]));
            lemma_stable_sort_elems(orig, sorted[k]);
            let w = choose|w: int| 0 <= w < orig.len() && orig[w] == sorted[k];
            assert(orig[w].valid());
        }
    }
    let mut flags: Vec<bool> = Vec::new();
    let mut fi: usize = 0;
    while fi < n
        invariant
            flags@.len() == fi <= n,
            forall|k: int| 0 <= k < fi ==> !flags@[k],
        decreases n - fi,
    {
        flags.push(false);
        fi = fi + 1;
    }
    let mut out: Vec<BoundingBox> = Vec::new();
    proof {
        lemma_unsup_all_false(sorted, flags@, 0);
        assert(sorted.skip(0) =~= sorted);
        assert(Seq::<BoundingBox>::empty() + nms_filter(sorted, thr) =~= nms_filter(sorted, thr));
    }
    let mut ih: usize = 0;
    while ih < n
        invariant
            ih <= n,
            n == sorted.len(),
            flags@.len() == n,
            thr == iou_threshold as int,
            bbox_list@ == sorted,
            all_valid(sorted),
            all_valid(out@),
            out@ + nms_filter(unsup_between(sorted, flags@, ih as int, n as int), thr)
                == nms_filter(sorted, thr),
        decreases n - ih,
    {
        if !flags[ih] {
            let ghost out0 = out@;
            let ghost f0 = flags@;
            let ghost kbox = sorted[ih as int];
            let b = bbox_list[ih].clone();
            out.push(b);
            proof {
                assert(unsup_between(sorted, flags@, ih + 1, ih + 1)
                    =~= Seq::<BoundingBox>::empty());
                assert(unsup_between(sorted, f0, ih + 1, ih + 1) =~= Seq::<BoundingBox>::empty());
                assert(erase_over(Seq::<BoundingBox>::empty(), kbox, thr)
                    == Seq::<BoundingBox>::empty());
            }
            let mut il: usize = ih + 1;
            while il < n
                invariant
                    ih < il <= n,
                    ih < n,
                    n == sorted.len(),
                    flags@.len() == n,
                    f0.len() == n,
                    thr == iou_threshold as int,
                    bbox_list@ == sorted,
                    all_valid(sorted),
                    kbox == sorted[ih as int],
                    forall|j: int| il <= j < n ==> flags@[j] == f0[j],
                    unsup_between(sorted, flags@, ih + 1, il as int) == erase_over(
                        unsup_between(sorted, f0, ih + 1, il as int),
                        kbox,
                        thr,
                    ),
                decreases n - il,
            {
                let ghost fpre = flags@;
                if !flags[il] {
                    let v = calculate_iou(&bbox_list[ih], &bbox_list[il]);
                    proof {
                        assert(v == iou_spec(kbox, sorted[il as int]));
                    }
                    if v > iou_threshold {
                        flags.set(il, true);
                        proof {
                            lemma_suppress_step(
                                sorted,
                                f0,
                                fpre,
                                flags@,
                                kbox,
                                thr,
                                ih as int,
                                il as int,
                            );
                        }
                    } else {
                        proof {
                            lemma_suppress_step(
                                sorted,
                                f0,
                                fpre,
                                flags@,
                                kbox,
                                thr,
                                ih as int,
                                il as int,
                            );
                        }
                    }
                } else {
                    proof {
                        lemma_suppress_step(
                            sorted,
                            f0,
                            fpre,
                            flags@,
                            kbox,
                            thr,
                            ih as int,
                            il as int,
                        );
                    }
                }
                il = il + 1;
            }
            proof {
                let u = unsup_between(sorted, f0, ih as int, n as int);
                assert(u == seq![kbox] + unsup_between(sorted, f0, ih + 1, n as int));
                assert(u[0] == kbox);
                assert(u.drop_first() =~= unsup_between(sorted, f0, ih + 1, n as int));
                assert(u.len() > 0);
                assert(nms_filter(u, thr) == seq![kbox] + nms_filter(
                    erase_over(u.drop_first(), kbox, thr),
                    thr,
                ));
                assert(erase_over(u.drop_first(), kbox, thr) == unsup_between(
                    sorted,
                    flags@,
                    ih + 1,
                    n as int,
                ));
                assert(out@ == out0 + seq![kbox]);
                assert((out0 + seq![kbox]) + nms_filter(
                    unsup_between(sorted, flags@, ih + 1, n as int),
                    thr,
                ) =~= out0 + (seq![kbox] + nms_filter(
                    unsup_between(sorted, flags@, ih + 1, n as int),
                    thr,
                )));
                assert forall|k: int| 0 <= k < out@.len() implies out@[k].valid() by {
                    if k < out0.len() {
                        assert(out0[k].valid());
                    } else {
                        assert(out@[k] == kbox);
                    }
                }
            }
        } else {
            proof {
                assert(unsup_between(sorted, flags@, ih as int, n as int) == unsup_between(
                    sorted,
                    flags@,
                    ih + 1,
                    n as int,
                ));
            }
        }
        ih = ih + 1;
    }
    proof {
        assert(unsup_between(sorted, flags@, n as int, n as int) =~= Seq::<BoundingBox>::empty());
        assert(nms_filter(Seq::<BoundingBox>::empty(), thr) =~= Seq::<BoundingBox>::empty());
        assert(out@ + Seq::<BoundingBox>::empty() =~= out@);
        lemma_nms_filter_len(sorted, thr);
        lemma_stable_sort_len(orig);
        lemma_stable_sort_sorted(orig);
        lemma_nms_filter_sorted(sorted, thr);
        lemma_nms_filter_pairwise(sorted, thr);
    }
    out
}

} // verus!
