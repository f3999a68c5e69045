use ecr_janitor::delete::{chunk_identifiers, delete_identifiers, delete_images, ImageId};
use ecr_janitor::error::ErrorKind;
use ecr_janitor::page::Page;
use ecr_janitor::registry::Image;
use ecr_janitor::retention::evaluate;
use ecr_janitor::service::clean_repository;

fn image(ts: i64, digest: &str) -> Image {
    Image { digest: Some(digest.to_string()), pushed_at: Some(ts), size_bytes: None }
}

fn id(digest: &str) -> ImageId {
    ImageId { digest: Some(digest.to_string()) }
}

/// Twelve images already sorted newest-first, digests d1 (newest) .. d12
/// (oldest).
fn twelve_sorted() -> Vec<Image> {
    (0..12).map(|i| image(120 - 10 * i, &format!("d{}", i + 1))).collect()
}

#[test]
fn retention_meets_threshold_and_picks_three_oldest() {
    let d = evaluate(twelve_sorted(), 10, 3);
    assert!(d.act);
    let digests: Vec<Option<String>> = d.victims.into_iter().map(|i| i.digest).collect();
    assert_eq!(
        digests,
        vec![
            Some("d10".to_string()),
            Some("d11".to_string()),
            Some("d12".to_string())
        ]
    );
}

#[test]
fn retention_below_threshold_picks_nothing() {
    let d = evaluate(twelve_sorted(), 15, 3);
    assert!(!d.act);
    assert!(d.victims.is_empty());
}

#[test]
fn retention_count_larger_than_list_clamps_to_all() {
    let d = evaluate(twelve_sorted(), 10, 20);
    assert!(d.act);
    assert_eq!(d.victims.len(), 12);
    assert_eq!(d.victims, twelve_sorted());
}

#[test]
fn successive_cleans_never_pick_the_same_digest() {
    // First pass: threshold 3, count 2 over twelve distinct digests.
    let first = evaluate(twelve_sorted(), 3, 2);
    let picked: Vec<Option<String>> =
        first.victims.iter().map(|i| i.digest.clone()).collect();
    // The second pass observes the post-deletion state: the survivors.
    let survivors: Vec<Image> = twelve_sorted()
        .into_iter()
        .filter(|i| !picked.contains(&i.digest))
        .collect();
    let second = evaluate(survivors, 3, 2);
    for v in &second.victims {
        assert!(!picked.contains(&v.digest));
    }
    assert_eq!(second.victims.len(), 2);
}

#[test]
fn identifiers_carry_digests_only_and_clamp_to_count() {
    let victims = vec![image(30, "a"), image(20, "b"), image(10, "c")];
    let ids = delete_identifiers(victims, 2);
    assert_eq!(ids, vec![id("a"), id("b")]);
}

#[test]
fn identifiers_keep_an_absent_digest_absent() {
    let victims = vec![Image { digest: None, pushed_at: Some(1), size_bytes: None }];
    let ids = delete_identifiers(victims, 5);
    assert_eq!(ids, vec![ImageId { digest: None }]);
}

#[test]
fn chunking_fills_every_batch_but_the_last() {
    let ids: Vec<ImageId> = (0..7).map(|i| id(&format!("d{i}"))).collect();
    let batches = chunk_identifiers(ids.clone(), 3);
    assert_eq!(batches.len(), 3);
    assert_eq!(batches[0].len(), 3);
    assert_eq!(batches[1].len(), 3);
    assert_eq!(batches[2].len(), 1);
    let flat: Vec<ImageId> = batches.into_iter().flatten().collect();
    assert_eq!(flat, ids);
}

#[test]
fn chunking_an_exact_multiple_has_no_short_batch() {
    let ids: Vec<ImageId> = (0..4).map(|i| id(&format!("e{i}"))).collect();
    let batches = chunk_identifiers(ids.clone(), 2);
    assert_eq!(batches.len(), 2);
    assert_eq!(batches[0].len(), 2);
    assert_eq!(batches[1].len(), 2);
    let flat: Vec<ImageId> = batches.into_iter().flatten().collect();
    assert_eq!(flat, ids);
}

#[test]
fn chunking_nothing_makes_no_batches() {
    assert!(chunk_identifiers(Vec::new(), 100).is_empty());
}

#[test]
fn delete_images_builds_batches_from_the_selection() {
    let victims = vec![image(30, "a"), image(20, "b"), image(10, "c")];
    let batches = delete_images(victims, 3, 2);
    assert_eq!(batches, vec![vec![id("a"), id("b")], vec![id("c")]]);
}

#[test]
fn clean_repository_selects_the_oldest_across_pages() {
    let outcomes = vec![
        Ok(Page {
            items: vec![image(10, "old"), image(40, "new")],
            next_cursor: Some("c1".to_string()),
        }),
        Ok(Page { items: vec![image(20, "mid"), image(30, "fresh")], next_cursor: None }),
    ];
    let batches = clean_repository(outcomes, 3, 2, 100).unwrap();
    assert_eq!(batches, vec![vec![id("mid"), id("old")]]);
}

#[test]
fn clean_repository_run_twice_never_repeats_a_digest() {
    let listing = |images: Vec<Image>| vec![Ok(Page { items: images, next_cursor: None })];
    let all = vec![
        image(50, "v5"),
        image(10, "v1"),
        image(30, "v3"),
        image(20, "v2"),
        image(40, "v4"),
    ];
    let first: Vec<ImageId> = clean_repository(listing(all.clone()), 3, 2, 100)
        .unwrap()
        .into_iter()
        .flatten()
        .collect();
    assert_eq!(first, vec![id("v2"), id("v1")]);
    // The second run drains the post-deletion remote state.
    let picked: Vec<Option<String>> = first.iter().map(|i| i.digest.clone()).collect();
    let survivors: Vec<Image> = all.into_iter().filter(|i| !picked.contains(&i.digest)).collect();
    let second: Vec<ImageId> = clean_repository(listing(survivors), 3, 2, 100)
        .unwrap()
        .into_iter()
        .flatten()
        .collect();
    assert_eq!(second, vec![id("v4"), id("v3")]);
    for i in &second {
        assert!(!first.contains(i));
    }
}

#[test]
fn clean_repository_below_threshold_deletes_nothing() {
    let outcomes = vec![Ok(Page { items: vec![image(10, "only")], next_cursor: None })];
    let batches = clean_repository(outcomes, 2, 1, 100).unwrap();
    assert!(batches.is_empty());
}

#[test]
fn clean_repository_surfaces_the_drain_failure() {
    let outcomes = vec![Err("denied".to_string())];
    let e = clean_repository(outcomes, 2, 1, 100).unwrap_err();
    assert_eq!(e.kind, ErrorKind::RemoteError);
    assert_eq!(e.message, "Could not list images: denied");
}
