//! The deletion executor's verified half: victims become digest-addressed
//! identifiers, and identifiers become batches no larger than the remote
//! API's per-call cap.
//!
//! Which images to remove is the retention policy's decision; this module
//! only converts and chunks, preserving the selection order.  Issuing the
//! batch calls is remote I/O and belongs to the surrounding shell; a batch
//! that fails mid-way is not rolled back there, the failure is surfaced.

use vstd::prelude::*;

use crate::registry::Image;
use crate::retention::pick_count;

verus! {

/// A deletion identifier: the digest alone.  A tag is never set, so every
/// tag on one digest is removed together as a single unit.
#[derive(Clone, Debug, PartialEq, Eq)]
pub struct ImageId {
    pub digest: Option<String>,
}

/// The identifiers a victim list maps to, in selection order.
pub open spec fn identifiers_of(victims: Seq<Image>) -> Seq<ImageId> {
    victims.map_values(|img: Image| ImageId { digest: img.digest })
}

/// A deletion identifier's digest as the laws see it: the character
/// sequence when present.
pub open spec fn id_digest_model(id: ImageId) -> Option<Seq<char>> {
    match id.digest {
        Some(d) => Some(d@),
        None => None,
    }
}

/// One flat sequence of identifiers out of a batch list, batch order kept.
pub open spec fn batches_model(batches: Seq<Vec<ImageId>>) -> Seq<ImageId> {
    batches.map_values(|b: Vec<ImageId>| b@).flatten()
}

/// Maps the first `count` victims (clamped to the list's length) to
/// digest-only identifiers, in order.
pub fn delete_identifiers(victims: Vec<Image>, count: u64) -> (ids: Vec<ImageId>)
    ensures
        ids@ == identifiers_of(victims@.take(pick_count(victims@, count))),
{
    let ghost orig = victims@;
    let take_n: usize = if count >= victims.len() as u64 {
        victims.len()
    } else {
        count as usize
    };
    let mut rest = victims;
    let mut ids: Vec<ImageId> = Vec::new();
    let ghost mut done: int = 0;
    proof {
        assert(take_n as int == pick_count(orig, count));
        assert(orig.skip(0) =~= orig);
        assert(identifiers_of(orig.take(0)) =~= Seq::<ImageId>::empty());
    }
    while ids.len() < take_n
        invariant
            orig == victims@,
            take_n as int == pick_count(orig, count),
            0 <= done <= take_n as int <= orig.len(),
            done == ids@.len(),
            rest@ == orig.skip(done),
            ids@ == identifiers_of(orig.take(done)),
        decreases take_n - ids.len(),
    {
        let img = rest.remove(0);
        ids.push(ImageId { digest: img.digest });
        proof {
            assert(img == orig[done]);
            assert(orig.skip(done).remove(0) =~= orig.skip(done + 1));
            done = done + 1;
            assert(orig.take(done).drop_last() =~= orig.take(done - 1));
            assert(identifiers_of(orig.take(done)) =~= identifiers_of(orig.take(done - 1)).push(
                ImageId { digest: orig[done - 1].digest },
            ));
        }
    }
    ids
}

/// Chunks identifiers into batches of at most `cap`, preserving order;
/// every batch but the last is exactly `cap`, the last is never empty.
pub fn chunk_identifiers(ids: Vec<ImageId>, cap: usize) -> (batches: Vec<Vec<ImageId>>)
    requires
        cap > 0,
    ensures
        batches_model(batches@) == ids@,
        forall|i: int| 0 <= i < batches@.len() ==> 1 <= (#[trigger] batches@[i])@.len() <= cap,
        forall|i: int| 0 <= i < batches@.len() - 1 ==> (#[trigger] batches@[i])@.len() == cap,
        batches@.len() == 0 <==> ids@.len() == 0,
{
    let ghost orig = ids@;
    let mut rest = ids;
    let mut batches: Vec<Vec<ImageId>> = Vec::new();
    proof {
        assert(batches_model(batches@) =~= Seq::<ImageId>::empty());
        assert(batches_model(batches@) + rest@ =~= orig);
    }
    while rest.len() > cap
        invariant
            cap > 0,
            rest@.len() > 0 || batches@.len() == 0,
            batches_model(batches@) + rest@ == orig,
            forall|i: int| 0 <= i < batches@.len() ==> (#[trigger] batches@[i])@.len() == cap,
        decreases rest@.len(),
    {
        let ghost whole = rest@;
        let ghost prior = batches@;
        let tail = rest.split_off(cap);
        let ghost head_v = rest;
        batches.push(rest);
        rest = tail;
        proof {
            let head = whole.subrange(0, cap as int);
            assert(head_v@ == head);
            assert(batches@.map_values(|b: Vec<ImageId>| b@) =~= prior.map_values(
                |b: Vec<ImageId>| b@,
            ).push(head));
            prior.map_values(|b: Vec<ImageId>| b@).lemma_flatten_push(head);
            assert(batches_model(batches@) =~= batches_model(prior) + head);
            assert(batches_model(batches@) + rest@ =~= batches_model(prior) + whole);
        }
    }
    if rest.len() > 0 {
        let ghost prior = batches@;
        let ghost last_items = rest@;
        batches.push(rest);
        proof {
            assert(batches@.map_values(|b: Vec<ImageId>| b@) =~= prior.map_values(
                |b: Vec<ImageId>| b@,
            ).push(last_items));
            prior.map_values(|b: Vec<ImageId>| b@).lemma_flatten_push(last_items);
            assert(batches_model(batches@) =~= batches_model(prior) + last_items);
        }
    } else {
        proof {
            assert(batches_model(batches@) =~= orig);
        }
    }
    batches
}

/// Turns the selected victims into batched, digest-addressed delete
/// requests: the first `count` victims (clamped), each mapped to its digest
/// alone, chunked into batches of at most `cap` in selection order.
pub fn delete_images(victims: Vec<Image>, count: u64, cap: usize) -> (batches: Vec<Vec<ImageId>>)
    requires
        cap > 0,
    ensures
        batches_model(batches@) == identifiers_of(victims@.take(pick_count(victims@, count))),
        forall|i: int| 0 <= i < batches@.len() ==> 1 <= (#[trigger] batches@[i])@.len() <= cap,
        forall|i: int| 0 <= i < batches@.len() - 1 ==> (#[trigger] batches@[i])@.len() == cap,
{
    let ids = delete_identifiers(victims, count);
    chunk_identifiers(ids, cap)
}

} // verus!
