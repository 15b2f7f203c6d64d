//! Face detection around the model: how an image is fitted into its input, and which of
//! the candidates it finds are faces.

use vstd::prelude::*;

use crate::cooccurrence::{double_detection, is_double};
use crate::library::FaceBox;
use crate::order::{before, is_order, lemma_order_of, order_of, sort_order};

verus! {

/// The detector's square input, in pixels.
pub const DET: u32 = 640;

/// Candidates below this score are no faces (in millionths).
pub const SCORE_THR: i64 = 600_000;

/// A face the detector may have found.
#[derive(Clone, Copy, PartialEq, Eq, Structural, Debug)]
pub struct Candidate {
    pub bbox: FaceBox,
    pub score: i64,
}

/// How an image is fitted into the detector's input: its size there, and the margins left
/// and above it.
#[derive(Clone, Copy, PartialEq, Eq, Structural, Debug)]
pub struct Letterbox {
    pub width: u32,
    pub height: u32,
    pub pad_x: u32,
    pub pad_y: u32,
}

/// An edge scaled so that the longest one fills the input: rounded, at least one pixel.
pub open spec fn fitted(edge: int, longest: int) -> int {
    let scaled = (2 * edge * DET + longest) / (2 * longest);
    if scaled < 1 {
        1
    } else if scaled > DET {
        DET as int
    } else {
        scaled
    }
}

/// The longer of two edges.
pub open spec fn longer(a: u32, b: u32) -> u32 {
    if a > b {
        a
    } else {
        b
    }
}

fn fit(edge: u32, longest: u32) -> (n: u32)
    requires
        longest > 0,
    ensures
        n == fitted(edge as int, longest as int),
        1 <= n <= DET,
{
    let scaled: u64 = (2 * edge as u64 * DET as u64 + longest as u64) / (2 * longest as u64);
    if scaled < 1 {
        1
    } else if scaled > DET as u64 {
        DET
    } else {
        scaled as u32
    }
}

/// The margin before an edge of the given length in the detector's input.
pub open spec fn margin(edge: int) -> int {
    (DET - edge) / 2
}

/// Fit an image into the detector's input: aspect ratio preserved, centered, padded.
pub fn letterbox(width: u32, height: u32) -> (l: Letterbox)
    requires
        width > 0 || height > 0,
    ensures
        l.width == fitted(width as int, longer(width, height) as int),
        l.height == fitted(height as int, longer(width, height) as int),
        l.pad_x == margin(l.width as int),
        l.pad_y == margin(l.height as int),
        l.pad_x == (DET - l.width) / 2,
        l.pad_y == (DET - l.height) / 2,
{
    let longest: u32 = if width > height {
        width
    } else {
        height
    };
    let w: u32 = fit(width, longest);
    let h: u32 = fit(height, longest);
    Letterbox { width: w, height: h, pad_x: (DET - w) / 2, pad_y: (DET - h) / 2 }
}

/// How candidates are ranked: best score first.
pub open spec fn by_candidate_score() -> spec_fn(Candidate) -> (i128, i128, i128) {
    |c: Candidate| (c.score as i128, 0, 0)
}

/// The candidates in the order they are looked at.
pub open spec fn score_order(cands: Seq<Candidate>) -> Seq<usize> {
    order_of(cands.map_values(by_candidate_score()))
}

/// Some kept candidate covers this one.
pub open spec fn covered(cands: Seq<Candidate>, keep: Seq<usize>, i: usize) -> bool {
    exists|k: int|
        0 <= k < keep.len() && is_double(
            cands[(#[trigger] keep[k]) as int].bbox,
            cands[i as int].bbox,
        )
}

/// What is kept of the candidates listed in `order`: each that no kept one before it
/// covers.
pub open spec fn suppressed(cands: Seq<Candidate>, order: Seq<usize>) -> Seq<usize>
    decreases order.len(),
{
    if order.len() == 0 {
        Seq::empty()
    } else {
        let keep = suppressed(cands, order.drop_last());
        if covered(cands, keep, order.last()) {
            keep
        } else {
            keep.push(order.last())
        }
    }
}

/// The faces among the candidates, best first: of candidates that overlap, only the best.
/// Returns their positions.
pub fn nms(cands: &Vec<Candidate>) -> (keep: Vec<usize>)
    ensures
        keep@ == suppressed(cands@, score_order(cands@)),
        forall|k: int| 0 <= k < keep@.len() ==> #[trigger] keep@[k] < cands@.len(),
{
    let ghost goal = cands@.map_values(by_candidate_score());
    let mut keys: Vec<(i128, i128, i128)> = Vec::with_capacity(cands.len());
    for i in 0..cands.len()
        invariant
            goal == cands@.map_values(by_candidate_score()),
            keys@ == goal.take(i as int),
    {
        keys.push((cands[i].score as i128, 0, 0));
        assert(keys@ =~= goal.take(i + 1));
    }
    assert(keys@ =~= goal);
    let order = sort_order(&keys);
    let mut keep: Vec<usize> = Vec::new();
    for p in 0..order.len()
        invariant
            is_order(keys@, order@),
            keys@.len() == cands@.len(),
            keep@ == suppressed(cands@, order@.take(p as int)),
            forall|k: int| 0 <= k < keep@.len() ==> #[trigger] keep@[k] < cands@.len(),
    {
        assert(order@.take(p + 1).drop_last() == order@.take(p as int));
        let i: usize = order[p];
        assert(order@[p as int] < keys@.len());
        let mut hit = false;
        let mut k: usize = 0;
        while k < keep.len() && !hit
            invariant
                k <= keep@.len(),
                i < cands@.len(),
                forall|k: int| 0 <= k < keep@.len() ==> #[trigger] keep@[k] < cands@.len(),
                hit ==> covered(cands@, keep@, i),
                !hit ==> forall|j: int|
                    0 <= j < k ==> !is_double(
                        cands@[(#[trigger] keep@[j]) as int].bbox,
                        cands@[i as int].bbox,
                    ),
            decreases keep@.len() - k + if hit {
                0int
            } else {
                1
            },
        {
            if double_detection(cands[keep[k]].bbox, cands[i].bbox) {
                assert(is_double(cands@[keep@[k as int] as int].bbox, cands@[i as int].bbox));
                hit = true;
            } else {
                k = k + 1;
            }
        }
        if !hit {
            keep.push(i);
        }
    }
    assert(order@.take(order@.len() as int) == order@);
    keep
}

proof fn lemma_suppressed(cands: Seq<Candidate>, order: Seq<usize>)
    ensures
        forall|k: int|
            0 <= k < suppressed(cands, order).len() ==> order.contains(
                #[trigger] suppressed(cands, order)[k],
            ),
        forall|a: int, b: int|
            0 <= a < b < suppressed(cands, order).len() ==> !is_double(
                cands[(#[trigger] suppressed(cands, order)[a]) as int].bbox,
                cands[(#[trigger] suppressed(cands, order)[b]) as int].bbox,
            ),
    decreases order.len(),
{
    if order.len() > 0 {
        let front = order.drop_last();
        lemma_suppressed(cands, front);
        let rest = suppressed(cands, front);
        let all = suppressed(cands, order);
        assert forall|k: int| 0 <= k < all.len() implies order.contains(#[trigger] all[k]) by {
            if k < rest.len() {
                assert(all[k] == rest[k]);
                let p = choose|p: int| 0 <= p < front.len() && front[p] == rest[k];
                assert(order[p] == all[k]);
            } else {
                assert(order[order.len() - 1] == all[k]);
            }
        }
        assert forall|a: int, b: int| 0 <= a < b < all.len() implies !is_double(
            cands[(#[trigger] all[a]) as int].bbox,
            cands[(#[trigger] all[b]) as int].bbox,
        ) by {
            assert(all[a] == rest[a]);
            if b < rest.len() {
                assert(all[b] == rest[b]);
            }
        }
    }
}

/// No two faces that are kept are one face detected twice.
pub proof fn law_kept_faces_are_apart(cands: Seq<Candidate>, a: int, b: int)
    requires
        0 <= a < b < suppressed(cands, score_order(cands)).len(),
    ensures
        !is_double(
            cands[suppressed(cands, score_order(cands))[a] as int].bbox,
            cands[suppressed(cands, score_order(cands))[b] as int].bbox,
        ),
{
    lemma_suppressed(cands, score_order(cands));
}

/// The kept candidates of a longer list start with those of a shorter one.
proof fn lemma_kept_covers(cands: Seq<Candidate>, order: Seq<usize>, p: int) -> (k: int)
    requires
        0 <= p < order.len(),
        !suppressed(cands, order).contains(order[p]),
    ensures
        0 <= k < suppressed(cands, order).len(),
        is_double(
            cands[suppressed(cands, order)[k] as int].bbox,
            cands[order[p] as int].bbox,
        ),
        order.take(p).contains(suppressed(cands, order)[k]),
    decreases order.len(),
{
    let front = order.drop_last();
    let rest = suppressed(cands, front);
    let all = suppressed(cands, order);
    if p < front.len() {
        assert(front[p] == order[p]);
        assert(!rest.contains(front[p])) by {
            if rest.contains(front[p]) {
                let k = choose|k: int| 0 <= k < rest.len() && rest[k] == front[p];
                assert(all[k] == order[p]);
            }
        }
        let k = lemma_kept_covers(cands, front, p);
        assert(all[k] == rest[k]);
        assert(front.take(p) =~= order.take(p));
        k
    } else {
        assert(order[p] == order.last());
        if !covered(cands, rest, order.last()) {
            assert(all[rest.len() as int] == order[p]);
        }
        let k = choose|k: int|
            0 <= k < rest.len() && is_double(
                cands[(#[trigger] rest[k]) as int].bbox,
                cands[order.last() as int].bbox,
            );
        lemma_suppressed(cands, front);
        assert(order.take(p) =~= front);
        k
    }
}

/// A candidate is dropped only for one that is kept, covers it, and scores at least as
/// well.
pub proof fn law_dropped_faces_are_covered(cands: Seq<Candidate>, i: usize) -> (k: int)
    requires
        cands.len() <= usize::MAX,
        i < cands.len(),
        !suppressed(cands, score_order(cands)).contains(i),
    ensures
        0 <= k < suppressed(cands, score_order(cands)).len(),
        is_double(
            cands[suppressed(cands, score_order(cands))[k] as int].bbox,
            cands[i as int].bbox,
        ),
        cands[suppressed(cands, score_order(cands))[k] as int].score >= cands[i as int].score,
{
    let keys = cands.map_values(by_candidate_score());
    let order = score_order(cands);
    lemma_order_of(keys);
    assert(order.contains(i));
    let p = choose|p: int| 0 <= p < order.len() && order[p] == i;
    let k = lemma_kept_covers(cands, order, p);
    let best = suppressed(cands, order)[k];
    let q = choose|q: int| 0 <= q < order.take(p).len() && order.take(p)[q] == best;
    assert(order[q] == best);
    assert(before(keys, order[q] as int, order[p] as int));
    k
}

} // verus!
