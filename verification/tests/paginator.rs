use ecr_janitor::error::ErrorKind;
use ecr_janitor::page::{drain, drain_step, DrainStep, ListOp, Page};

fn page(items: Vec<u64>, cursor: Option<&str>) -> Result<Page<u64>, String> {
    Ok(Page { items, next_cursor: cursor.map(|c| c.to_string()) })
}

#[test]
fn drain_concatenates_pages_in_order() {
    let outcomes = vec![
        page(vec![1, 2], Some("c1")),
        page(vec![3], Some("c2")),
        page(vec![4, 5], None),
    ];
    let r = drain(outcomes, ListOp::Images).unwrap();
    assert_eq!(r, vec![1, 2, 3, 4, 5]);
    assert_eq!(r.len(), 2 + 1 + 2);
}

#[test]
fn drain_single_terminal_page() {
    let outcomes = vec![page(vec![7], None)];
    assert_eq!(drain(outcomes, ListOp::Repositories).unwrap(), vec![7]);
}

#[test]
fn drain_empty_page_fails_not_found_for_images() {
    let outcomes = vec![page(vec![1, 2], Some("c1")), page(vec![], Some("c2"))];
    let e = drain(outcomes, ListOp::Images).unwrap_err();
    assert_eq!(e.kind, ErrorKind::NotFound);
    assert_eq!(e.message, "no images found in repository");
}

#[test]
fn drain_empty_first_page_fails_not_found_for_repositories() {
    let outcomes = vec![page(vec![], None)];
    let e = drain(outcomes, ListOp::Repositories).unwrap_err();
    assert_eq!(e.kind, ErrorKind::NotFound);
    assert_eq!(e.message, "no repositories found");
}

#[test]
fn drain_remote_failure_reports_operation_and_detail() {
    let outcomes = vec![page(vec![1], Some("c1")), Err("connection reset".to_string())];
    let e = drain(outcomes, ListOp::Images).unwrap_err();
    assert_eq!(e.kind, ErrorKind::RemoteError);
    assert_eq!(e.message, "Could not list images: connection reset");
}

#[test]
fn drain_stops_at_the_failing_page() {
    // Pages supplied after the failure play no part in the result.
    let failing = vec![page(vec![1], Some("c1")), Err("boom".to_string())];
    let longer = vec![
        page(vec![1], Some("c1")),
        Err("boom".to_string()),
        page(vec![9, 9, 9], None),
    ];
    assert_eq!(
        drain(failing, ListOp::Repositories).unwrap_err(),
        drain(longer, ListOp::Repositories).unwrap_err()
    );
}

#[test]
fn drain_outstanding_cursor_with_no_answer_is_a_remote_error() {
    let outcomes = vec![page(vec![1], Some("c1"))];
    let e = drain(outcomes, ListOp::Repositories).unwrap_err();
    assert_eq!(e.kind, ErrorKind::RemoteError);
    assert_eq!(
        e.message,
        "Could not list repositories: listing ended before a terminal page"
    );
}

#[test]
fn drain_step_continue_carries_cursor_and_items() {
    let acc = vec![1u64, 2];
    match drain_step(acc, page(vec![3, 4], Some("next")), ListOp::Images) {
        DrainStep::Continue(gathered, cursor) => {
            assert_eq!(gathered, vec![1, 2, 3, 4]);
            assert_eq!(cursor, "next");
        }
        _ => panic!("expected the drain to continue"),
    }
}

#[test]
fn error_getters_expose_kind_and_message() {
    let outcomes = vec![page(vec![], None)];
    let e = drain(outcomes, ListOp::Images).unwrap_err();
    assert_eq!(e.kind(), ErrorKind::NotFound);
    assert_eq!(e.message(), "no images found in repository");
}

#[test]
fn drain_step_terminal_page_finishes() {
    match drain_step(vec![1u64], page(vec![2], None), ListOp::Images) {
        DrainStep::Done(all) => assert_eq!(all, vec![1, 2]),
        _ => panic!("expected the drain to finish"),
    }
}
