//! The operations the surrounding shell exposes, composed end to end over
//! remote answers that are known up front: drain every page, then sort, and
//! for a clean also decide retention and build the delete batches.
//!
//! The shell that talks to the live service drives the same composition one
//! page at a time with [`crate::page::drain_step`]; these functions are that
//! pipeline with the remote answers handed in as plain values, which is also
//! how the tests exercise it.

use vstd::prelude::*;
use vstd::relations::sorted_by;
use vstd::seq_lib::group_to_multiset_ensures;

use crate::delete::{batches_model, delete_images, id_digest_model, identifiers_of, ImageId};
use crate::error::Error;
use crate::order::digest_model;
use crate::page::{drain, drain_spec, result_matches, ListOp, Page};
use crate::registry::{Image, Repository};
use crate::retention::{evaluate, pick_count, retention_survivors, retention_victims};
use crate::sort::{
    image_order, lemma_stable_sorted_fixed, lemma_stable_sorted_props, repo_order, sort_images,
    sort_repositories, stable_sorted,
};

verus! {

/// Drains a repository listing: every page's items in page order, or the
/// first failure.
pub fn get_repository_list(outcomes: Vec<Result<Page<Repository>, String>>) -> (r: Result<
    Vec<Repository>,
    Error,
>)
    ensures
        result_matches(r, drain_spec(outcomes@, ListOp::Repositories)),
{
    drain(outcomes, ListOp::Repositories)
}

/// Drains an image listing: every page's items in page order, or the first
/// failure.
pub fn get_repository_image_list(outcomes: Vec<Result<Page<Image>, String>>) -> (r: Result<
    Vec<Image>,
    Error,
>)
    ensures
        result_matches(r, drain_spec(outcomes@, ListOp::Images)),
{
    drain(outcomes, ListOp::Images)
}

/// Drains the repository listing and sorts it ascending by name, absent
/// names last.
pub fn list_repositories(outcomes: Vec<Result<Page<Repository>, String>>) -> (r: Result<
    Vec<Repository>,
    Error,
>)
    ensures
        match drain_spec(outcomes@, ListOp::Repositories) {
            Ok(items) => r is Ok && r->Ok_0@ == stable_sorted(items, repo_order()),
            Err(m) => r is Err && r->Err_0@ == m,
        },
{
    match get_repository_list(outcomes) {
        Ok(repositories) => Ok(sort_repositories(repositories)),
        Err(e) => Err(e),
    }
}

/// Drains one repository's image listing and sorts it newest first, absent
/// push times counting as epoch `0`.
pub fn list_repository_images(outcomes: Vec<Result<Page<Image>, String>>) -> (r: Result<
    Vec<Image>,
    Error,
>)
    ensures
        match drain_spec(outcomes@, ListOp::Images) {
            Ok(items) => r is Ok && r->Ok_0@ == stable_sorted(items, image_order()),
            Err(m) => r is Err && r->Err_0@ == m,
        },
{
    match get_repository_image_list(outcomes) {
        Ok(images) => Ok(sort_images(images)),
        Err(e) => Err(e),
    }
}

/// What one clean pass deletes from a drained image list: the victims the
/// retention policy picks from the newest-first sort, as digest-only
/// identifiers in selection order.
pub open spec fn clean_selection(items: Seq<Image>, threshold: u64, count: u64) -> Seq<ImageId> {
    identifiers_of(retention_victims(stable_sorted(items, image_order()), threshold, count))
}

/// One whole clean pass over a drained image listing: drain, sort newest
/// first, decide retention, and build delete batches of at most `cap`
/// identifiers each.  The batches hold exactly the policy's victims, oldest
/// end of the list, in order; when the threshold is not met there are none.
pub fn clean_repository(
    outcomes: Vec<Result<Page<Image>, String>>,
    threshold: u64,
    count: u64,
    cap: usize,
) -> (r: Result<Vec<Vec<ImageId>>, Error>)
    requires
        cap > 0,
    ensures
        match drain_spec(outcomes@, ListOp::Images) {
            Ok(items) => r is Ok && batches_model(r->Ok_0@) == clean_selection(
                items,
                threshold,
                count,
            ) && (forall|i: int|
                0 <= i < r->Ok_0@.len() ==> 1 <= (#[trigger] r->Ok_0@[i])@.len() <= cap) && (
            forall|i: int| 0 <= i < r->Ok_0@.len() - 1 ==> (#[trigger] r->Ok_0@[i])@.len() == cap),
            Err(m) => r is Err && r->Err_0@ == m,
        },
{
    match get_repository_image_list(outcomes) {
        Ok(images) => {
            let sorted = sort_images(images);
            let decision = evaluate(sorted, threshold, count);
            let ghost victims = decision.victims@;
            let batches = delete_images(decision.victims, count, cap);
            proof {
                assert(victims.len() <= count);
                assert(victims.take(pick_count(victims, count)) =~= victims);
            }
            Ok(batches)
        },
        Err(e) => Err(e),
    }
}

/// Sorting does not manufacture duplicate digests: when every digest of the
/// drained list is distinct, so is every digest of its newest-first sort.
proof fn lemma_sorted_digests_distinct(items: Seq<Image>)
    requires
        forall|i: int, j: int|
            0 <= i < j < items.len() ==> digest_model(#[trigger] items[i]) != digest_model(
                #[trigger] items[j],
            ),
    ensures
        forall|i: int, j: int|
            0 <= i < j < stable_sorted(items, image_order()).len() ==> digest_model(
                #[trigger] stable_sorted(items, image_order())[i],
            ) != digest_model(#[trigger] stable_sorted(items, image_order())[j]),
{
    broadcast use group_to_multiset_ensures;

    lemma_stable_sorted_props(items, image_order());
    let sorted = stable_sorted(items, image_order());
    assert(items.no_duplicates()) by {
        assert forall|i: int, j: int|
            0 <= i < items.len() && 0 <= j < items.len() && i != j implies items[i]
            != items[j] by {
            if i < j {
                assert(digest_model(items[i]) != digest_model(items[j]));
            } else {
                assert(digest_model(items[j]) != digest_model(items[i]));
            }
        }
    }
    items.lemma_multiset_has_no_duplicates();
    sorted.lemma_multiset_has_no_duplicates_conv();
    assert forall|i: int, j: int| 0 <= i < j < sorted.len() implies digest_model(
        #[trigger] sorted[i],
    ) != digest_model(#[trigger] sorted[j]) by {
        let a = sorted[i];
        let b = sorted[j];
        assert(a != b);
        assert(sorted.contains(a));
        assert(sorted.contains(b));
        assert(items.to_multiset().count(a) > 0);
        assert(items.to_multiset().count(b) > 0);
        assert(items.contains(a));
        assert(items.contains(b));
        let ia = choose|k: int| 0 <= k < items.len() && items[k] == a;
        let ib = choose|k: int| 0 <= k < items.len() && items[k] == b;
        assert(ia != ib);
        if ia < ib {
            assert(digest_model(items[ia]) != digest_model(items[ib]));
        } else {
            assert(digest_model(items[ib]) != digest_model(items[ia]));
        }
    }
}

/// Law: a clean pass that drains exactly what an earlier pass left behind
/// never selects a digest the earlier pass selected, provided every digest
/// of the first drain was distinct — re-running the clean cannot delete
/// overlapping digests.
pub proof fn lemma_clean_rerun_disjoint(items: Seq<Image>, threshold: u64, count: u64)
    requires
        forall|i: int, j: int|
            0 <= i < j < items.len() ==> digest_model(#[trigger] items[i]) != digest_model(
                #[trigger] items[j],
            ),
    ensures
        forall|x: ImageId, y: ImageId|
            #[trigger] clean_selection(items, threshold, count).contains(x)
                && #[trigger] clean_selection(
                retention_survivors(stable_sorted(items, image_order()), threshold, count),
                threshold,
                count,
            ).contains(y) ==> id_digest_model(x) != id_digest_model(y),
{
    let sorted = stable_sorted(items, image_order());
    lemma_stable_sorted_props(items, image_order());
    lemma_sorted_digests_distinct(items);
    let survivors = retention_survivors(sorted, threshold, count);
    assert(sorted_by(survivors, image_order())) by {
        assert forall|i: int, j: int| 0 <= i < j < survivors.len() implies #[trigger] image_order()(
            survivors[i],
            survivors[j],
        ) by {
            assert(image_order()(sorted[i], sorted[j]));
        }
    }
    lemma_stable_sorted_fixed(survivors, image_order());
    crate::retention::lemma_rerun_picks_disjoint(sorted, threshold, count);
    let first = retention_victims(sorted, threshold, count);
    let second = retention_victims(survivors, threshold, count);
    assert forall|x: ImageId, y: ImageId|
        #[trigger] clean_selection(items, threshold, count).contains(x) && #[trigger] clean_selection(
        survivors,
        threshold,
        count,
    ).contains(y) implies id_digest_model(x) != id_digest_model(y) by {
        let kx = choose|k: int|
            0 <= k < identifiers_of(first).len() && identifiers_of(first)[k] == x;
        let ky = choose|k: int|
            0 <= k < identifiers_of(second).len() && identifiers_of(second)[k] == y;
        assert(x == (ImageId { digest: first[kx].digest }));
        assert(y == (ImageId { digest: second[ky].digest }));
        assert(first.contains(first[kx]));
        assert(second.contains(second[ky]));
        assert(digest_model(first[kx]) != digest_model(second[ky]));
    }
}

} // verus!
