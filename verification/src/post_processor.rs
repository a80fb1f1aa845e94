use vstd::multiset::Multiset;
use vstd::prelude::*;

use crate::geometry::BoundingBox;
use crate::geometry::COORD_SCALE;
use crate::geometry::iou_exceeds;
use crate::geometry::lemma_iou_symmetric;
use crate::geometry::spec_iou_exceeds;

verus! {

/// A candidate box together with the detector's confidence that it holds a
/// face. The confidence is scaled by [`COORD_SCALE`] like the coordinates.
#[derive(Clone, Copy, PartialEq, Eq, Structural, Debug)]
pub struct Detection {
    pub bbox: BoundingBox,
    pub confidence: i64,
}

impl Detection {
    pub open spec fn wf(self) -> bool {
        &&& self.bbox.wf()
        &&& 0 <= self.confidence <= COORD_SCALE
    }
}

pub open spec fn all_wf(s: Seq<Detection>) -> bool {
    forall|i: int| 0 <= i < s.len() ==> s[i].wf()
}

pub open spec fn sorted_ascending(s: Seq<Detection>) -> bool {
    forall|i: int, j: int| 0 <= i <= j < s.len() ==> s[i].confidence <= s[j].confidence
}

pub open spec fn sorted_descending(s: Seq<Detection>) -> bool {
    forall|i: int, j: int| 0 <= i <= j < s.len() ==> s[i].confidence >= s[j].confidence
}

pub open spec fn strictly_ascending(s: Seq<Detection>) -> bool {
    forall|i: int, j: int| 0 <= i < j < s.len() ==> s[i].confidence < s[j].confidence
}

pub open spec fn strictly_descending(s: Seq<Detection>) -> bool {
    forall|i: int, j: int| 0 <= i < j < s.len() ==> s[i].confidence > s[j].confidence
}

/// Where a stable ascending sort places `d` into the already sorted `s`:
/// after every element whose confidence is not above `d`'s, so that among
/// equal confidences the earlier-paired candidate keeps the earlier place.
pub open spec fn spec_insert_by_confidence(s: Seq<Detection>, d: Detection) -> Seq<Detection>
    decreases s.len(),
{
    if s.len() == 0 {
        seq![d]
    } else if s.last().confidence <= d.confidence {
        s.push(d)
    } else {
        spec_insert_by_confidence(s.drop_last(), d).push(s.last())
    }
}

/// Stable insertion sort by ascending confidence. This pins the order of
/// equal-confidence detections: their relative input order is kept.
pub open spec fn spec_sort_by_confidence(s: Seq<Detection>) -> Seq<Detection>
    decreases s.len(),
{
    if s.len() == 0 {
        Seq::empty()
    } else {
        spec_insert_by_confidence(spec_sort_by_confidence(s.drop_last()), s.last())
    }
}

proof fn lemma_insert_by_confidence_at(s: Seq<Detection>, d: Detection, pos: int)
    requires
        sorted_ascending(s),
        0 <= pos <= s.len(),
        forall|k: int| pos <= k < s.len() ==> s[k].confidence > d.confidence,
        pos > 0 ==> s[pos - 1].confidence <= d.confidence,
    ensures
        spec_insert_by_confidence(s, d) == s.insert(pos, d),
    decreases s.len(),
{
    if s.len() == 0 {
        assert(spec_insert_by_confidence(s, d) =~= s.insert(pos, d));
    } else if s.last().confidence <= d.confidence {
        assert(pos == s.len());
        assert(spec_insert_by_confidence(s, d) =~= s.insert(pos, d));
    } else {
        assert(pos < s.len());
        lemma_insert_by_confidence_at(s.drop_last(), d, pos);
        assert(spec_insert_by_confidence(s, d) == s.drop_last().insert(pos, d).push(s.last()));
        assert(s.drop_last().insert(pos, d).push(s.last()) =~= s.insert(pos, d));
    }
}

/// Inserting preserves the multiset of detections: the result holds exactly
/// the old elements plus `d`.
pub proof fn lemma_insert_by_confidence_multiset(s: Seq<Detection>, d: Detection)
    ensures
        spec_insert_by_confidence(s, d).to_multiset() == s.to_multiset().insert(d),
    decreases s.len(),
{
    broadcast use vstd::seq_lib::group_to_multiset_ensures;

    if s.len() == 0 {
        assert(seq![d] =~= Seq::<Detection>::empty().push(d));
        assert(Seq::<Detection>::empty().push(d).to_multiset() =~= Multiset::<
            Detection,
        >::empty().insert(d));
        assert(s.to_multiset() =~= Multiset::<Detection>::empty());
    } else if s.last().confidence <= d.confidence {
    } else {
        lemma_insert_by_confidence_multiset(s.drop_last(), d);
        assert(s =~= s.drop_last().push(s.last()));
        assert(s.to_multiset() =~= s.drop_last().to_multiset().insert(s.last()));
        assert(spec_insert_by_confidence(s, d).to_multiset() =~= s.drop_last().to_multiset().insert(
            d,
        ).insert(s.last()));
        assert(s.drop_last().to_multiset().insert(d).insert(s.last()) =~= s.drop_last().to_multiset().insert(
            s.last(),
        ).insert(d));
    }
}

/// Sorting preserves the multiset of detections: nothing is added, dropped
/// or duplicated.
pub proof fn lemma_sort_by_confidence_permutes(s: Seq<Detection>)
    ensures
        spec_sort_by_confidence(s).to_multiset() == s.to_multiset(),
    decreases s.len(),
{
    broadcast use vstd::seq_lib::group_to_multiset_ensures;

    if s.len() == 0 {
        assert(spec_sort_by_confidence(s).to_multiset() =~= s.to_multiset());
    } else {
        lemma_sort_by_confidence_permutes(s.drop_last());
        lemma_insert_by_confidence_multiset(spec_sort_by_confidence(s.drop_last()), s.last());
        assert(s =~= s.drop_last().push(s.last()));
        assert(s.to_multiset() =~= s.drop_last().to_multiset().insert(s.last()));
    }
}

/// A sorted sequence and its source contain the same detections.
pub proof fn lemma_sort_by_confidence_contains(s: Seq<Detection>, d: Detection)
    ensures
        spec_sort_by_confidence(s).contains(d) <==> s.contains(d),
{
    broadcast use vstd::seq_lib::group_to_multiset_ensures;

    lemma_sort_by_confidence_permutes(s);
    assert(s.contains(d) <==> s.to_multiset().count(d) > 0);
    assert(spec_sort_by_confidence(s).contains(d) <==> spec_sort_by_confidence(
        s,
    ).to_multiset().count(d) > 0);
}

proof fn lemma_sorted_contains_wf(s: Seq<Detection>, sorted: Seq<Detection>)
    requires
        all_wf(s),
        forall|d: Detection| sorted.contains(d) ==> s.contains(d),
    ensures
        all_wf(sorted),
{
    assert forall|i: int| 0 <= i < sorted.len() implies sorted[i].wf() by {
        assert(sorted.contains(sorted[i]));
        let j = choose|j: int| 0 <= j < s.len() && s[j] == sorted[i];
        assert(s[j].wf());
    }
}

fn insert_by_confidence(sorted: &mut Vec<Detection>, d: Detection)
    requires
        sorted_ascending(old(sorted)@),
    ensures
        final(sorted)@ == spec_insert_by_confidence(old(sorted)@, d),
        sorted_ascending(final(sorted)@),
{
    let ghost s = sorted@;
    let mut pos: usize = sorted.len();
    while pos > 0 && sorted[pos - 1].confidence > d.confidence
        invariant
            pos <= sorted@.len(),
            sorted@ == s,
            sorted_ascending(s),
            forall|k: int| pos <= k < s.len() ==> s[k].confidence > d.confidence,
        decreases pos,
    {
        pos = pos - 1;
    }
    proof {
        lemma_insert_by_confidence_at(s, d, pos as int);
    }
    sorted.insert(pos, d);
    assert(sorted_ascending(sorted@)) by {
        assert forall|i: int, j: int|
            0 <= i <= j < sorted@.len() implies sorted@[i].confidence
            <= sorted@[j].confidence by {
            assert(sorted@ == s.insert(pos as int, d));
        }
    }
}

/// Sort candidate detections by ascending confidence, keeping the relative
/// order of equal confidences (a stable sort).
pub fn sort_by_confidence(detections: &Vec<Detection>) -> (sorted: Vec<Detection>)
    ensures
        sorted@ == spec_sort_by_confidence(detections@),
        sorted_ascending(sorted@),
{
    let mut sorted: Vec<Detection> = Vec::new();
    let mut i: usize = 0;
    while i < detections.len()
        invariant
            i <= detections@.len(),
            sorted@ == spec_sort_by_confidence(detections@.subrange(0, i as int)),
            sorted_ascending(sorted@),
        decreases detections@.len() - i,
    {
        let ghost prefix = detections@.subrange(0, i as int);
        insert_by_confidence(&mut sorted, detections[i]);
        i = i + 1;
        proof {
            let next = detections@.subrange(0, i as int);
            assert(next.drop_last() =~= prefix);
            assert(next.last() == detections@[i - 1]);
        }
    }
    proof {
        assert(detections@.subrange(0, detections@.len() as int) =~= detections@);
    }
    sorted
}

/// The result of greedy suppression: walk `remaining` from its back (the
/// most confident candidate first), discard a candidate whose box overlaps
/// any already selected box beyond `max_iou`, and append it to `selected`
/// otherwise.
pub open spec fn spec_nms(
    remaining: Seq<Detection>,
    selected: Seq<Detection>,
    max_iou: int,
) -> Seq<Detection>
    decreases remaining.len(),
{
    if remaining.len() == 0 {
        selected
    } else {
        let candidate = remaining.last();
        let rest = remaining.drop_last();
        if exists|k: int|
            0 <= k < selected.len() && spec_iou_exceeds(
                candidate.bbox,
                selected[k].bbox,
                max_iou,
            ) {
            spec_nms(rest, selected, max_iou)
        } else {
            spec_nms(rest, selected.push(candidate), max_iou)
        }
    }
}

/// No two detections of `s` overlap beyond `max_iou`, in either order of
/// comparison.
pub open spec fn pairwise_separated(s: Seq<Detection>, max_iou: int) -> bool {
    forall|i: int, j: int|
        0 <= i < j < s.len() ==> !spec_iou_exceeds(s[i].bbox, s[j].bbox, max_iou)
            && !spec_iou_exceeds(s[j].bbox, s[i].bbox, max_iou)
}

proof fn lemma_nms_separated_step(remaining: Seq<Detection>, selected: Seq<Detection>, max_iou: int)
    requires
        pairwise_separated(selected, max_iou),
    ensures
        pairwise_separated(spec_nms(remaining, selected, max_iou), max_iou),
    decreases remaining.len(),
{
    if remaining.len() > 0 {
        let candidate = remaining.last();
        let rest = remaining.drop_last();
        if exists|k: int|
            0 <= k < selected.len() && spec_iou_exceeds(
                candidate.bbox,
                selected[k].bbox,
                max_iou,
            ) {
            lemma_nms_separated_step(rest, selected, max_iou);
        } else {
            let pushed = selected.push(candidate);
            assert forall|i: int, j: int| 0 <= i < j < pushed.len() implies !spec_iou_exceeds(
                pushed[i].bbox,
                pushed[j].bbox,
                max_iou,
            ) && !spec_iou_exceeds(pushed[j].bbox, pushed[i].bbox, max_iou) by {
                if j == selected.len() {
                    assert(!spec_iou_exceeds(candidate.bbox, selected[i].bbox, max_iou));
                    lemma_iou_symmetric(candidate.bbox, selected[i].bbox);
                }
            }
            lemma_nms_separated_step(rest, pushed, max_iou);
        }
    }
}

/// Suppression only ever removes candidates: every detection it keeps was
/// already among the candidates or the previously selected ones.
proof fn lemma_nms_subset_step(remaining: Seq<Detection>, selected: Seq<Detection>, max_iou: int)
    ensures
        forall|d: Detection|
            spec_nms(remaining, selected, max_iou).contains(d) ==> remaining.contains(d)
                || selected.contains(d),
    decreases remaining.len(),
{
    if remaining.len() > 0 {
        let candidate = remaining.last();
        let rest = remaining.drop_last();
        assert forall|d: Detection| rest.contains(d) implies remaining.contains(d) by {
            let i = choose|i: int| 0 <= i < rest.len() && rest[i] == d;
            assert(remaining[i] == d);
        }
        assert(remaining.contains(candidate)) by {
            assert(remaining[remaining.len() - 1] == candidate);
        }
        if exists|k: int|
            0 <= k < selected.len() && spec_iou_exceeds(
                candidate.bbox,
                selected[k].bbox,
                max_iou,
            ) {
            lemma_nms_subset_step(rest, selected, max_iou);
        } else {
            lemma_nms_subset_step(rest, selected.push(candidate), max_iou);
            assert forall|d: Detection|
                selected.push(candidate).contains(d) implies remaining.contains(d)
                || selected.contains(d) by {
                let i = choose|i: int|
                    0 <= i < selected.push(candidate).len() && selected.push(candidate)[i] == d;
                if i < selected.len() {
                    assert(selected[i] == d);
                }
            }
        }
    }
}

proof fn lemma_nms_descending_step(remaining: Seq<Detection>, selected: Seq<Detection>, max_iou: int)
    requires
        sorted_ascending(remaining),
        sorted_descending(selected),
        forall|i: int, j: int|
            0 <= i < selected.len() && 0 <= j < remaining.len() ==> selected[i].confidence
                >= remaining[j].confidence,
    ensures
        sorted_descending(spec_nms(remaining, selected, max_iou)),
    decreases remaining.len(),
{
    if remaining.len() > 0 {
        let candidate = remaining.last();
        let rest = remaining.drop_last();
        if exists|k: int|
            0 <= k < selected.len() && spec_iou_exceeds(
                candidate.bbox,
                selected[k].bbox,
                max_iou,
            ) {
            lemma_nms_descending_step(rest, selected, max_iou);
        } else {
            lemma_nms_descending_step(rest, selected.push(candidate), max_iou);
        }
    }
}

proof fn lemma_nms_strictly_descending_step(
    remaining: Seq<Detection>,
    selected: Seq<Detection>,
    max_iou: int,
)
    requires
        strictly_ascending(remaining),
        strictly_descending(selected),
        forall|i: int, j: int|
            0 <= i < selected.len() && 0 <= j < remaining.len() ==> selected[i].confidence
                > remaining[j].confidence,
    ensures
        strictly_descending(spec_nms(remaining, selected, max_iou)),
    decreases remaining.len(),
{
    if remaining.len() > 0 {
        let candidate = remaining.last();
        let rest = remaining.drop_last();
        if exists|k: int|
            0 <= k < selected.len() && spec_iou_exceeds(
                candidate.bbox,
                selected[k].bbox,
                max_iou,
            ) {
            lemma_nms_strictly_descending_step(rest, selected, max_iou);
        } else {
            lemma_nms_strictly_descending_step(rest, selected.push(candidate), max_iou);
        }
    }
}

/// Suppression output is a subset of its input: every detection it returns
/// is one of the candidates handed to it.
pub proof fn lemma_nms_output_subset(input: Seq<Detection>, max_iou: int)
    ensures
        forall|d: Detection|
            spec_nms(input, Seq::empty(), max_iou).contains(d) ==> input.contains(d),
{
    lemma_nms_subset_step(input, Seq::empty(), max_iou);
}

/// No two detections that suppression keeps overlap beyond `max_iou`.
pub proof fn lemma_nms_output_separated(input: Seq<Detection>, max_iou: int)
    ensures
        pairwise_separated(spec_nms(input, Seq::empty(), max_iou), max_iou),
{
    lemma_nms_separated_step(input, Seq::empty(), max_iou);
}

/// On candidates sorted by ascending confidence, suppression returns its
/// detections ordered most confident first.
pub proof fn lemma_nms_output_descending(input: Seq<Detection>, max_iou: int)
    requires
        sorted_ascending(input),
    ensures
        sorted_descending(spec_nms(input, Seq::empty(), max_iou)),
{
    lemma_nms_descending_step(input, Seq::empty(), max_iou);
}

/// When no two candidates share a confidence, the order of the kept
/// detections is strictly descending. (With equal confidences the order is
/// descending but not strictly: two equal, non-overlapping candidates are
/// both kept.)
pub proof fn lemma_nms_output_strictly_descending(input: Seq<Detection>, max_iou: int)
    requires
        strictly_ascending(input),
    ensures
        strictly_descending(spec_nms(input, Seq::empty(), max_iou)),
{
    lemma_nms_strictly_descending_step(input, Seq::empty(), max_iou);
}

/// Run non-maximum suppression on candidate detections.
///
/// The candidates have to be sorted in ascending order of confidence: the
/// most confident is taken from the back first, compared against every
/// already selected box, and kept only when no comparison exceeds
/// `max_iou` (a threshold scaled by [`COORD_SCALE`]).
pub fn non_maximum_suppression(
    sorted_bboxes_with_confidences: Vec<Detection>,
    max_iou: i64,
) -> (selected: Vec<Detection>)
    requires
        all_wf(sorted_bboxes_with_confidences@),
        0 <= max_iou <= COORD_SCALE,
    ensures
        selected@ == spec_nms(sorted_bboxes_with_confidences@, Seq::empty(), max_iou as int),
        all_wf(selected@),
        pairwise_separated(selected@, max_iou as int),
{
    proof {
        lemma_nms_output_separated(sorted_bboxes_with_confidences@, max_iou as int);
    }
    let ghost input = sorted_bboxes_with_confidences@;
    let mut remaining = sorted_bboxes_with_confidences;
    let mut selected: Vec<Detection> = Vec::new();
    while remaining.len() != 0
        invariant
            all_wf(remaining@),
            all_wf(selected@),
            0 <= max_iou <= COORD_SCALE,
            spec_nms(remaining@, selected@, max_iou as int) == spec_nms(
                input,
                Seq::empty(),
                max_iou as int,
            ),
        decreases remaining@.len(),
    {
        let ghost rem0 = remaining@;
        let ghost sel0 = selected@;
        let candidate = remaining.pop().unwrap();
        proof {
            assert(rem0[rem0.len() - 1].wf());
            assert(rem0.drop_last() =~= remaining@);
        }
        let mut overlaps = false;
        let mut k: usize = 0;
        while k < selected.len() && !overlaps
            invariant
                k <= selected@.len(),
                selected@ == sel0,
                candidate.wf(),
                all_wf(sel0),
                0 <= max_iou <= COORD_SCALE,
                !overlaps ==> forall|t: int|
                    0 <= t < k ==> !spec_iou_exceeds(
                        candidate.bbox,
                        sel0[t].bbox,
                        max_iou as int,
                    ),
                overlaps ==> exists|t: int|
                    0 <= t < sel0.len() && spec_iou_exceeds(
                        candidate.bbox,
                        sel0[t].bbox,
                        max_iou as int,
                    ),
            decreases selected@.len() - k,
        {
            assert(sel0[k as int].wf());
            if iou_exceeds(&candidate.bbox, &selected[k].bbox, max_iou) {
                overlaps = true;
            }
            k = k + 1;
        }
        if overlaps {
            proof {
                assert(spec_nms(rem0, sel0, max_iou as int) == spec_nms(
                    remaining@,
                    sel0,
                    max_iou as int,
                ));
            }
        } else {
            proof {
                assert(k == sel0.len());
                assert(!(exists|t: int|
                    0 <= t < sel0.len() && spec_iou_exceeds(
                        candidate.bbox,
                        sel0[t].bbox,
                        max_iou as int,
                    )));
                assert(spec_nms(rem0, sel0, max_iou as int) == spec_nms(
                    remaining@,
                    sel0.push(candidate),
                    max_iou as int,
                ));
            }
            selected.push(candidate);
        }
    }
    proof {
        assert(spec_nms(remaining@, selected@, max_iou as int) == selected@);
    }
    selected
}

/// Why decoding raw detector output failed: the flat score tensor does
/// not hold whole two-class pairs, the flat box tensor does not hold
/// whole quadruples, or the two tensors disagree on the number of
/// candidates.
#[derive(Clone, Copy, PartialEq, Eq, Structural, Debug)]
pub enum DecodeError {
    ScoreTensorMisaligned,
    BoxTensorMisaligned,
    CandidateCountMismatch,
}

/// The face confidence of each candidate in a flat two-class score
/// tensor: the second score of each pair.
pub open spec fn spec_face_scores(flat: Seq<i64>) -> Seq<i64> {
    Seq::new((flat.len() / 2) as nat, |i: int| flat[2 * i + 1])
}

/// Slice the face score out of a flat tensor of two-class score pairs
/// (background score first, face score second, per candidate).
pub fn confidences_from_pairs(score_flat: &Vec<i64>) -> (result: Result<Vec<i64>, DecodeError>)
    ensures
        match result {
            Ok(confidences) => score_flat@.len() % 2 == 0 && confidences@ == spec_face_scores(
                score_flat@,
            ),
            Err(e) => e == DecodeError::ScoreTensorMisaligned && score_flat@.len() % 2 != 0,
        },
{
    if score_flat.len() % 2 != 0 {
        return Err(DecodeError::ScoreTensorMisaligned);
    }
    let mut confidences: Vec<i64> = Vec::new();
    let mut j: usize = 0;
    while j < score_flat.len()
        invariant
            score_flat@.len() % 2 == 0,
            j % 2 == 0,
            j <= score_flat@.len(),
            confidences@.len() == j / 2,
            forall|k: int|
                0 <= k < confidences@.len() ==> confidences@[k] == score_flat@[2 * k + 1],
        decreases score_flat@.len() - j,
    {
        proof {
            assert((score_flat@.len() - j) % 2 == 0);
            assert(j + 1 < score_flat@.len());
            assert(2 * (j / 2) == j);
        }
        confidences.push(score_flat[j + 1]);
        j = j + 2;
    }
    proof {
        assert(confidences@ =~= spec_face_scores(score_flat@));
    }
    Ok(confidences)
}

/// The box spelled out at quadruple `i` of a flat coordinate tensor:
/// top-left x and y, then bottom-right x and y.
pub open spec fn spec_box_at(flat: Seq<i64>, i: int) -> BoundingBox {
    BoundingBox {
        x_tl: flat[4 * i],
        y_tl: flat[4 * i + 1],
        x_br: flat[4 * i + 2],
        y_br: flat[4 * i + 3],
    }
}

/// All boxes of a flat coordinate tensor, in candidate order.
pub open spec fn spec_boxes_of(flat: Seq<i64>) -> Seq<BoundingBox> {
    Seq::new((flat.len() / 4) as nat, |i: int| spec_box_at(flat, i))
}

/// Group a flat tensor of box coordinates into one box per four values.
pub fn bboxes_from_flat(bbox_flat: &Vec<i64>) -> (result: Result<Vec<BoundingBox>, DecodeError>)
    ensures
        match result {
            Ok(boxes) => bbox_flat@.len() % 4 == 0 && boxes@ == spec_boxes_of(bbox_flat@),
            Err(e) => e == DecodeError::BoxTensorMisaligned && bbox_flat@.len() % 4 != 0,
        },
{
    if bbox_flat.len() % 4 != 0 {
        return Err(DecodeError::BoxTensorMisaligned);
    }
    let mut boxes: Vec<BoundingBox> = Vec::new();
    let mut j: usize = 0;
    while j < bbox_flat.len()
        invariant
            bbox_flat@.len() % 4 == 0,
            j % 4 == 0,
            j <= bbox_flat@.len(),
            boxes@.len() == j / 4,
            forall|k: int| 0 <= k < boxes@.len() ==> boxes@[k] == spec_box_at(bbox_flat@, k),
        decreases bbox_flat@.len() - j,
    {
        proof {
            assert((bbox_flat@.len() - j) % 4 == 0);
            assert(j + 3 < bbox_flat@.len());
            assert(4 * (j / 4) == j);
        }
        let bbox = BoundingBox {
            x_tl: bbox_flat[j],
            y_tl: bbox_flat[j + 1],
            x_br: bbox_flat[j + 2],
            y_br: bbox_flat[j + 3],
        };
        boxes.push(bbox);
        j = j + 4;
    }
    proof {
        assert(boxes@ =~= spec_boxes_of(bbox_flat@));
    }
    Ok(boxes)
}

/// The candidates that survive the confidence threshold, paired up in
/// candidate order: candidate `i` is kept exactly when `confs[i]` is
/// strictly above `threshold`.
pub open spec fn spec_filtered_detections(
    confs: Seq<i64>,
    boxes: Seq<BoundingBox>,
    n: int,
    threshold: int,
) -> Seq<Detection>
    decreases n,
{
    if n <= 0 {
        Seq::empty()
    } else {
        let prev = spec_filtered_detections(confs, boxes, n - 1, threshold);
        if confs[n - 1] > threshold {
            prev.push(Detection { bbox: boxes[n - 1], confidence: confs[n - 1] })
        } else {
            prev
        }
    }
}

/// Pair each candidate box with its confidence and discard every pair at
/// or below the threshold (scaled by [`COORD_SCALE`]).
pub fn filter_by_confidence(
    confidences: &Vec<i64>,
    bboxes: &Vec<BoundingBox>,
    confidence_threshold: i64,
) -> (kept: Vec<Detection>)
    requires
        confidences@.len() == bboxes@.len(),
        forall|i: int|
            0 <= i < confidences@.len() ==> 0 <= #[trigger] confidences@[i] <= COORD_SCALE,
        forall|i: int| 0 <= i < bboxes@.len() ==> bboxes@[i].wf(),
    ensures
        kept@ == spec_filtered_detections(
            confidences@,
            bboxes@,
            confidences@.len() as int,
            confidence_threshold as int,
        ),
        all_wf(kept@),
{
    let mut kept: Vec<Detection> = Vec::new();
    let mut i: usize = 0;
    while i < confidences.len()
        invariant
            i <= confidences@.len(),
            confidences@.len() == bboxes@.len(),
            forall|j: int|
                0 <= j < confidences@.len() ==> 0 <= #[trigger] confidences@[j] <= COORD_SCALE,
            forall|j: int| 0 <= j < bboxes@.len() ==> bboxes@[j].wf(),
            kept@ == spec_filtered_detections(
                confidences@,
                bboxes@,
                i as int,
                confidence_threshold as int,
            ),
            all_wf(kept@),
        decreases confidences@.len() - i,
    {
        if confidences[i] > confidence_threshold {
            let detection = Detection { bbox: bboxes[i], confidence: confidences[i] };
            kept.push(detection);
        }
        i = i + 1;
    }
    kept
}

/// What the detection decoder returns for a confidence tensor and a flat
/// box tensor: threshold, stable ascending sort, then greedy suppression,
/// leaving the selected detections most confident first.
pub open spec fn spec_decoded_detections(
    confs: Seq<i64>,
    flat: Seq<i64>,
    threshold: int,
    max_iou: int,
) -> Seq<Detection> {
    spec_nms(
        spec_sort_by_confidence(
            spec_filtered_detections(
                confs,
                spec_boxes_of(flat),
                confs.len() as int,
                threshold,
            ),
        ),
        Seq::empty(),
        max_iou,
    )
}

/// Every detection the decoder returns is one of the candidates that
/// survived the confidence threshold: the sort permutes them and the
/// suppression only removes.
pub proof fn lemma_decoded_subset_of_filtered(
    confs: Seq<i64>,
    flat: Seq<i64>,
    threshold: int,
    max_iou: int,
)
    ensures
        forall|d: Detection|
            spec_decoded_detections(confs, flat, threshold, max_iou).contains(d)
                ==> spec_filtered_detections(
                confs,
                spec_boxes_of(flat),
                confs.len() as int,
                threshold,
            ).contains(d),
{
    let filtered = spec_filtered_detections(confs, spec_boxes_of(flat), confs.len() as int, threshold);
    let sorted = spec_sort_by_confidence(filtered);
    lemma_nms_output_subset(sorted, max_iou);
    assert forall|d: Detection|
        spec_decoded_detections(confs, flat, threshold, max_iou).contains(d) implies filtered.contains(
        d,
    ) by {
        lemma_sort_by_confidence_contains(filtered, d);
    }
}

/// The decoded output of one detector call: the selected boxes with their
/// confidences, mutually non-overlapping and ordered most confident first.
pub struct UltraOutput {
    pub bbox_with_confidences: Vec<Detection>,
}

impl UltraOutput {
    /// Decode one detector call: one confidence per candidate in
    /// `confidences`, four normalized coordinates per candidate in
    /// `bbox_flat`, both scaled by [`COORD_SCALE`]. Candidates at or below
    /// `confidence_threshold` are dropped, the rest go through greedy
    /// non-maximum suppression with threshold `max_iou`. Tensors whose
    /// shapes do not agree are rejected as malformed.
    pub fn new(
        confidences: &Vec<i64>,
        bbox_flat: &Vec<i64>,
        confidence_threshold: i64,
        max_iou: i64,
    ) -> (result: Result<UltraOutput, DecodeError>)
        requires
            forall|i: int|
                0 <= i < confidences@.len() ==> 0 <= #[trigger] confidences@[i] <= COORD_SCALE,
            forall|i: int|
                0 <= i < bbox_flat@.len() ==> 0 <= #[trigger] bbox_flat@[i] <= COORD_SCALE,
            0 <= max_iou <= COORD_SCALE,
        ensures
            match result {
                Ok(output) => bbox_flat@.len() % 4 == 0 && bbox_flat@.len() / 4
                    == confidences@.len() && output.bbox_with_confidences@
                    == spec_decoded_detections(
                    confidences@,
                    bbox_flat@,
                    confidence_threshold as int,
                    max_iou as int,
                ) && all_wf(output.bbox_with_confidences@) && sorted_descending(
                    output.bbox_with_confidences@,
                ) && pairwise_separated(output.bbox_with_confidences@, max_iou as int),
                Err(DecodeError::BoxTensorMisaligned) => bbox_flat@.len() % 4 != 0,
                Err(DecodeError::CandidateCountMismatch) => bbox_flat@.len() % 4 == 0
                    && bbox_flat@.len() / 4 != confidences@.len(),
                Err(DecodeError::ScoreTensorMisaligned) => false,
            },
    {
        let boxes = match bboxes_from_flat(bbox_flat) {
            Ok(boxes) => boxes,
            Err(e) => {
                return Err(e);
            },
        };
        if boxes.len() != confidences.len() {
            return Err(DecodeError::CandidateCountMismatch);
        }
        proof {
            assert forall|i: int| 0 <= i < boxes@.len() implies boxes@[i].wf() by {
                assert(boxes@[i] == spec_box_at(bbox_flat@, i));
            }
        }
        let kept = filter_by_confidence(confidences, &boxes, confidence_threshold);
        let sorted = sort_by_confidence(&kept);
        proof {
            assert forall|d: Detection| sorted@.contains(d) implies kept@.contains(d) by {
                lemma_sort_by_confidence_contains(kept@, d);
            }
            lemma_sorted_contains_wf(kept@, sorted@);
            lemma_nms_output_descending(sorted@, max_iou as int);
        }
        let selected = non_maximum_suppression(sorted, max_iou);
        Ok(UltraOutput { bbox_with_confidences: selected })
    }
}

} // verus!
