use ecr_janitor::page::Page;
use ecr_janitor::registry::{display_or_default, Image, Repository};
use ecr_janitor::service::{list_repositories, list_repository_images};
use ecr_janitor::sort::{sort_images, sort_repositories};

fn repo(name: Option<&str>, uri: Option<&str>) -> Repository {
    Repository { name: name.map(|n| n.to_string()), uri: uri.map(|u| u.to_string()) }
}

fn image(ts: Option<i64>, digest: &str) -> Image {
    Image { digest: Some(digest.to_string()), pushed_at: ts, size_bytes: Some(1024) }
}

#[test]
fn repositories_sort_ascending_with_absent_names_last() {
    let sorted = sort_repositories(vec![repo(Some("b"), None), repo(Some("a"), None), repo(None, None)]);
    let names: Vec<Option<String>> = sorted.into_iter().map(|r| r.name).collect();
    assert_eq!(
        names,
        vec![Some("a".to_string()), Some("b".to_string()), None]
    );
}

#[test]
fn repository_sort_is_stable_for_equal_names() {
    let sorted = sort_repositories(vec![
        repo(Some("same"), Some("first")),
        repo(Some("aaa"), Some("other")),
        repo(Some("same"), Some("second")),
    ]);
    let uris: Vec<Option<String>> = sorted.into_iter().map(|r| r.uri).collect();
    assert_eq!(
        uris,
        vec![
            Some("other".to_string()),
            Some("first".to_string()),
            Some("second".to_string())
        ]
    );
}

#[test]
fn images_sort_descending_with_absent_timestamp_as_epoch_zero() {
    let sorted = sort_images(vec![image(Some(100), "d1"), image(None, "d2"), image(Some(50), "d3")]);
    let digests: Vec<Option<String>> = sorted.into_iter().map(|i| i.digest).collect();
    assert_eq!(
        digests,
        vec![
            Some("d1".to_string()),
            Some("d3".to_string()),
            Some("d2".to_string())
        ]
    );
}

#[test]
fn image_sort_is_stable_for_equal_timestamps() {
    let sorted = sort_images(vec![image(Some(5), "x"), image(Some(5), "y"), image(Some(9), "z")]);
    let digests: Vec<Option<String>> = sorted.into_iter().map(|i| i.digest).collect();
    assert_eq!(
        digests,
        vec![
            Some("z".to_string()),
            Some("x".to_string()),
            Some("y".to_string())
        ]
    );
}

#[test]
fn absent_timestamp_ties_with_epoch_zero_stably() {
    // An absent push time counts as epoch 0, so it ties with a real epoch-0
    // push time and the input order of the tie is kept.
    let sorted = sort_images(vec![image(None, "absent"), image(Some(0), "zero")]);
    let digests: Vec<Option<String>> = sorted.into_iter().map(|i| i.digest).collect();
    assert_eq!(
        digests,
        vec![Some("absent".to_string()), Some("zero".to_string())]
    );
}

#[test]
fn absent_fields_render_as_the_sentinel() {
    assert_eq!(display_or_default(&None), "n/a");
    assert_eq!(display_or_default(&Some("uri".to_string())), "uri");
}

#[test]
fn list_repositories_drains_and_sorts_end_to_end() {
    let outcomes = vec![
        Ok(Page {
            items: vec![repo(Some("b"), None), repo(Some("a"), None)],
            next_cursor: Some("c1".to_string()),
        }),
        Ok(Page { items: vec![repo(None, None)], next_cursor: None }),
    ];
    let sorted = list_repositories(outcomes).unwrap();
    let names: Vec<String> = sorted.iter().map(|r| display_or_default(&r.name)).collect();
    assert_eq!(names, vec!["a", "b", "n/a"]);
}

#[test]
fn list_repository_images_drains_and_sorts_end_to_end() {
    let outcomes = vec![
        Ok(Page {
            items: vec![image(Some(100), "d1"), image(None, "d2")],
            next_cursor: Some("c1".to_string()),
        }),
        Ok(Page { items: vec![image(Some(50), "d3")], next_cursor: None }),
    ];
    let sorted = list_repository_images(outcomes).unwrap();
    let keys: Vec<i64> = sorted.iter().map(|i| i.pushed_at.unwrap_or(0)).collect();
    assert_eq!(keys, vec![100, 50, 0]);
}
