//! The retention policy: whether to act, and which images to remove.
//!
//! The policy sees the aggregated image list already sorted newest-first.
//! It acts exactly when the list has at least `threshold` images, and then
//! picks the `count` oldest ones — the tail of the descending list — as
//! victims, clamping to the list's length when `count` exceeds it.  Age is
//! the sole signal: no tag or other metadata is consulted.

use vstd::prelude::*;

use crate::order::digest_model;
use crate::registry::Image;

verus! {

/// Whether the policy acts: the list holds at least `threshold` images.
pub open spec fn retention_acts(images: Seq<Image>, threshold: u64) -> bool {
    images.len() >= threshold
}

/// How many images an acting policy picks: `count`, clamped to the list's
/// length.
pub open spec fn pick_count(images: Seq<Image>, count: u64) -> int {
    if count as int <= images.len() as int {
        count as int
    } else {
        images.len() as int
    }
}

/// The victims of one pass: the last `count` (clamped) entries of the
/// newest-first list when the policy acts, in list order; nothing otherwise.
pub open spec fn retention_victims(images: Seq<Image>, threshold: u64, count: u64) -> Seq<Image> {
    if retention_acts(images, threshold) {
        images.skip(images.len() - pick_count(images, count))
    } else {
        Seq::empty()
    }
}

/// What one pass leaves in the remote repository: everything before the
/// victims when the policy acts, the whole list otherwise.
pub open spec fn retention_survivors(images: Seq<Image>, threshold: u64, count: u64) -> Seq<
    Image,
> {
    if retention_acts(images, threshold) {
        images.take(images.len() - pick_count(images, count))
    } else {
        images
    }
}

/// What the policy decided: whether to act, and the selected victims (empty
/// when not acting).
pub struct RetentionDecision {
    pub act: bool,
    pub victims: Vec<Image>,
}

/// Applies the retention policy to a newest-first image list.
pub fn evaluate(images: Vec<Image>, threshold: u64, count: u64) -> (d: RetentionDecision)
    ensures
        d.act == retention_acts(images@, threshold),
        d.victims@ == retention_victims(images@, threshold, count),
{
    let len64 = images.len() as u64;
    if len64 < threshold {
        RetentionDecision { act: false, victims: Vec::new() }
    } else {
        let keep: usize = if count >= len64 {
            0
        } else {
            images.len() - (count as usize)
        };
        proof {
            assert(keep as int == images@.len() - pick_count(images@, count));
        }
        let mut kept = images;
        let victims = kept.split_off(keep);
        proof {
            assert(victims@ =~= images@.skip(images@.len() - pick_count(images@, count)));
        }
        RetentionDecision { act: true, victims }
    }
}

/// Law: when every digest in the list is distinct, a second pass over what
/// the first pass left behind never picks a digest the first pass picked —
/// re-running the clean cannot delete overlapping digests.
pub proof fn lemma_rerun_picks_disjoint(images: Seq<Image>, threshold: u64, count: u64)
    requires
        forall|i: int, j: int|
            0 <= i < j < images.len() ==> digest_model(#[trigger] images[i]) != digest_model(
                #[trigger] images[j],
            ),
    ensures
        forall|x: Image, y: Image|
            #[trigger] retention_victims(images, threshold, count).contains(x)
                && #[trigger] retention_victims(
                retention_survivors(images, threshold, count),
                threshold,
                count,
            ).contains(y) ==> digest_model(x) != digest_model(y),
{
    let first = retention_victims(images, threshold, count);
    let survivors = retention_survivors(images, threshold, count);
    let second = retention_victims(survivors, threshold, count);
    assert forall|x: Image, y: Image|
        #[trigger] first.contains(x) && #[trigger] second.contains(y) implies digest_model(x)
        != digest_model(y) by {
        let k1 = pick_count(images, count);
        let ix = choose|ix: int| 0 <= ix < first.len() && first[ix] == x;
        let iy = choose|iy: int| 0 <= iy < second.len() && second[iy] == y;
        let px = images.len() - k1 + ix;
        let k2 = pick_count(survivors, count);
        let py = survivors.len() - k2 + iy;
        assert(x == images[px]);
        assert(y == survivors[py]);
        assert(y == images[py]);
        assert(py < images.len() - k1 <= px);
        assert(digest_model(images[py]) != digest_model(images[px]));
    }
}

} // verus!
