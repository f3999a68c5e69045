//! The paginator: draining a cursor-paginated remote listing.
//!
//! A listing operation answers one [`Page`] at a time: some items plus an
//! optional continuation cursor.  The core decision for each answer is made
//! by [`drain_step`]; the surrounding shell performs the remote call, hands
//! the answer in, and follows the returned cursor until the drain is done or
//! has failed.  [`drain`] runs that same loop to completion over a sequence
//! of answers that is known up front, and is what the whole-drain contract
//! and the laws below are stated about.
//!
//! Policy, deliberately: a page with no items fails the whole drain with a
//! `NotFound` error rather than yielding an empty aggregate, and a failed
//! remote call fails it with a `RemoteError`; an aggregated list is either
//! complete or not returned at all.

use vstd::prelude::*;
use vstd::string::StringExecFns;

use crate::error::{Error, ErrorKind, ErrorModel};

verus! {

/// One page of a remote listing: the items of this page, in the order the
/// service returned them, and the continuation cursor if more pages remain.
/// An absent cursor marks the terminal page.
#[derive(Clone, Debug, PartialEq, Eq)]
pub struct Page<T> {
    pub items: Vec<T>,
    pub next_cursor: Option<String>,
}

/// Which listing operation a drain serves; it decides the wording of the
/// errors the drain reports.
#[derive(Clone, Copy, Debug, PartialEq, Eq, Structural)]
pub enum ListOp {
    Repositories,
    Images,
}

/// The message of the `NotFound` error for each listing operation.
pub open spec fn not_found_message(op: ListOp) -> Seq<char> {
    match op {
        ListOp::Repositories => "no repositories found"@,
        ListOp::Images => "no images found in repository"@,
    }
}

/// The operation-naming prefix of every `RemoteError` message.
pub open spec fn remote_error_prefix(op: ListOp) -> Seq<char> {
    match op {
        ListOp::Repositories => "Could not list repositories: "@,
        ListOp::Images => "Could not list images: "@,
    }
}

/// The detail reported when a stubbed answer sequence runs out while a
/// cursor is still outstanding.
pub open spec fn exhausted_detail() -> Seq<char> {
    "listing ended before a terminal page"@
}

fn not_found_error(op: ListOp) -> (e: Error)
    ensures
        e@ == (ErrorModel { kind: ErrorKind::NotFound, message: not_found_message(op) }),
{
    let m = match op {
        ListOp::Repositories => String::from_str("no repositories found"),
        ListOp::Images => String::from_str("no images found in repository"),
    };
    Error::new(ErrorKind::NotFound, m)
}

fn remote_error(op: ListOp, detail: String) -> (e: Error)
    ensures
        e@ == (ErrorModel {
            kind: ErrorKind::RemoteError,
            message: remote_error_prefix(op) + detail@,
        }),
{
    let mut m = match op {
        ListOp::Repositories => String::from_str("Could not list repositories: "),
        ListOp::Images => String::from_str("Could not list images: "),
    };
    m.append(detail.as_str());
    Error::new(ErrorKind::RemoteError, m)
}

fn exhausted_error(op: ListOp) -> (e: Error)
    ensures
        e@ == (ErrorModel {
            kind: ErrorKind::RemoteError,
            message: remote_error_prefix(op) + exhausted_detail(),
        }),
{
    remote_error(op, String::from_str("listing ended before a terminal page"))
}

/// What one drain step decides: fetch the next page with the given cursor,
/// finish with the aggregated items, or fail.
#[derive(Debug)]
pub enum DrainStep<T> {
    /// More pages remain: the items gathered so far, and the cursor the next
    /// request must carry.  All other request fields stay unchanged.
    Continue(Vec<T>, String),
    /// The terminal page arrived: the complete aggregated list.
    Done(Vec<T>),
    /// The drain failed; nothing further may be fetched.
    Fail(Error),
}

/// Decides what a drain does with one remote answer, given the items
/// accumulated from the earlier pages.
pub fn drain_step<T>(acc: Vec<T>, outcome: Result<Page<T>, String>, op: ListOp) -> (r: DrainStep<
    T,
>)
    ensures
        match outcome {
            Err(detail) => r matches DrainStep::Fail(e) && e@ == (ErrorModel {
                kind: ErrorKind::RemoteError,
                message: remote_error_prefix(op) + detail@,
            }),
            Ok(page) => if page.items@.len() == 0 {
                r matches DrainStep::Fail(e) && e@ == (ErrorModel {
                    kind: ErrorKind::NotFound,
                    message: not_found_message(op),
                })
            } else {
                match page.next_cursor {
                    Some(cursor) => r matches DrainStep::Continue(a, c) && a@ == acc@
                        + page.items@ && c == cursor,
                    None => r matches DrainStep::Done(v) && v@ == acc@ + page.items@,
                }
            },
        },
{
    match outcome {
        Err(detail) => DrainStep::Fail(remote_error(op, detail)),
        Ok(page) => {
            if page.items.len() == 0 {
                DrainStep::Fail(not_found_error(op))
            } else {
                let mut gathered = acc;
                let mut items = page.items;
                gathered.append(&mut items);
                match page.next_cursor {
                    Some(cursor) => DrainStep::Continue(gathered, cursor),
                    None => DrainStep::Done(gathered),
                }
            }
        },
    }
}

/// What a whole drain returns over a sequence of remote answers: the
/// concatenation of the pages' items in page order, or the first failure.
/// An answer sequence that runs out while a cursor is still outstanding is
/// reported as a remote failure.
pub open spec fn drain_spec<T>(outs: Seq<Result<Page<T>, String>>, op: ListOp) -> Result<
    Seq<T>,
    ErrorModel,
>
    decreases outs.len(),
{
    if outs.len() == 0 {
        Err(ErrorModel {
            kind: ErrorKind::RemoteError,
            message: remote_error_prefix(op) + exhausted_detail(),
        })
    } else {
        match outs[0] {
            Err(detail) => Err(ErrorModel {
                kind: ErrorKind::RemoteError,
                message: remote_error_prefix(op) + detail@,
            }),
            Ok(page) => if page.items@.len() == 0 {
                Err(ErrorModel { kind: ErrorKind::NotFound, message: not_found_message(op) })
            } else if page.next_cursor is Some {
                prepend_items(page.items@, drain_spec(outs.skip(1), op))
            } else {
                Ok(page.items@)
            },
        }
    }
}

/// Puts already-gathered items in front of a continuation's result; a failed
/// continuation fails the whole drain unchanged.
pub open spec fn prepend_items<T>(gathered: Seq<T>, rest: Result<Seq<T>, ErrorModel>) -> Result<
    Seq<T>,
    ErrorModel,
> {
    match rest {
        Ok(items) => Ok(gathered + items),
        Err(e) => Err(e),
    }
}

/// Relates an executable drain result to its model.
pub open spec fn result_matches<T>(r: Result<Vec<T>, Error>, m: Result<Seq<T>, ErrorModel>) -> bool {
    match (r, m) {
        (Ok(v), Ok(s)) => v@ == s,
        (Err(e), Err(em)) => e@ == em,
        _ => false,
    }
}

/// Drains a listing whose remote answers are known up front, aggregating all
/// pages into one list or failing as [`drain_spec`] says.  Answers past the
/// terminal or failing page are never consulted.
pub fn drain<T>(outcomes: Vec<Result<Page<T>, String>>, op: ListOp) -> (r: Result<Vec<T>, Error>)
    ensures
        result_matches(r, drain_spec(outcomes@, op)),
{
    let ghost orig: Seq<Result<Page<T>, String>> = outcomes@;
    let mut outs = outcomes;
    let mut acc: Vec<T> = Vec::new();
    let ghost mut done: int = 0;
    proof {
        assert(orig.skip(0) =~= orig);
        if drain_spec(orig, op) is Ok {
            assert(Seq::<T>::empty() + drain_spec(orig, op)->Ok_0 =~= drain_spec(orig, op)->Ok_0);
        }
    }
    loop
        invariant
            orig == outcomes@,
            0 <= done <= orig.len(),
            outs@ == orig.skip(done),
            drain_spec(orig, op) == prepend_items(acc@, drain_spec(orig.skip(done), op)),
        decreases orig.len() - done,
    {
        if outs.len() == 0 {
            return Err(exhausted_error(op));
        }
        let ghost before = orig.skip(done);
        let ghost acc_prev = acc@;
        let outcome = outs.remove(0);
        proof {
            assert(outcome == before[0]);
            assert(before.remove(0) =~= before.skip(1));
            assert(before.skip(1) =~= orig.skip(done + 1));
            assert(outs@ == orig.skip(done + 1));
        }
        match drain_step(acc, outcome, op) {
            DrainStep::Continue(gathered, _cursor) => {
                proof {
                    let page = outcome->Ok_0;
                    lemma_prepend_regroup::<T>(
                        acc_prev,
                        page.items@,
                        drain_spec(orig.skip(done + 1), op),
                    );
                    done = done + 1;
                }
                acc = gathered;
            },
            DrainStep::Done(v) => {
                return Ok(v);
            },
            DrainStep::Fail(e) => {
                return Err(e);
            },
        }
    }
}

/// Gathering in two goes is gathering in one: items already aggregated may
/// be folded into the front of a continuation in either grouping.
proof fn lemma_prepend_regroup<T>(
    first: Seq<T>,
    second: Seq<T>,
    rest: Result<Seq<T>, ErrorModel>,
)
    ensures
        prepend_items(first, prepend_items(second, rest)) == prepend_items(first + second, rest),
{
    match rest {
        Ok(items) => {
            assert(first + (second + items) =~= (first + second) + items);
        },
        Err(_) => {},
    }
}

/// A successful answer that carries at least one item.
pub open spec fn full_page<T>(out: Result<Page<T>, String>) -> bool {
    out is Ok && out->Ok_0.items@.len() > 0
}

/// A successful answer that carries a continuation cursor.
pub open spec fn has_cursor<T>(out: Result<Page<T>, String>) -> bool {
    out is Ok && out->Ok_0.next_cursor is Some
}

/// The concatenation of the pages' items in page order; a failed answer
/// contributes nothing.
pub open spec fn concat_items<T>(outs: Seq<Result<Page<T>, String>>) -> Seq<T>
    decreases outs.len(),
{
    if outs.len() == 0 {
        Seq::empty()
    } else {
        (match outs[0] {
            Ok(page) => page.items@,
            Err(_) => Seq::empty(),
        }) + concat_items(outs.skip(1))
    }
}

/// The sum of the pages' item counts.
pub open spec fn sum_item_counts<T>(outs: Seq<Result<Page<T>, String>>) -> nat
    decreases outs.len(),
{
    if outs.len() == 0 {
        0
    } else {
        (match outs[0] {
            Ok(page) => page.items@.len(),
            Err(_) => 0,
        }) + sum_item_counts(outs.skip(1))
    }
}

/// Over any chain of pages that are all non-empty, where every page but the
/// last carries a cursor and the last does not, the drain succeeds with
/// exactly the concatenation of the pages' items in page order, whose length
/// is the sum of the page lengths.
pub proof fn lemma_drain_full_chain<T>(outs: Seq<Result<Page<T>, String>>, op: ListOp)
    requires
        outs.len() > 0,
        forall|i: int| 0 <= i < outs.len() ==> full_page(#[trigger] outs[i]),
        forall|i: int| 0 <= i < outs.len() - 1 ==> has_cursor(#[trigger] outs[i]),
        !has_cursor(outs[outs.len() - 1]),
    ensures
        drain_spec(outs, op) == Ok::<Seq<T>, ErrorModel>(concat_items(outs)),
        concat_items(outs).len() == sum_item_counts(outs),
    decreases outs.len(),
{
    let page = outs[0]->Ok_0;
    if outs.len() == 1 {
        assert(concat_items(outs.skip(1)) =~= Seq::<T>::empty());
        assert(sum_item_counts(outs.skip(1)) == 0);
        assert(page.items@ + Seq::<T>::empty() =~= page.items@);
    } else {
        let rest = outs.skip(1);
        assert forall|i: int| 0 <= i < rest.len() implies full_page(#[trigger] rest[i]) by {
            assert(rest[i] == outs[i + 1]);
        }
        assert forall|i: int| 0 <= i < rest.len() - 1 implies has_cursor(#[trigger] rest[i]) by {
            assert(rest[i] == outs[i + 1]);
        }
        assert(rest[rest.len() - 1] == outs[outs.len() - 1]);
        lemma_drain_full_chain(rest, op);
    }
}

/// If some page of the chain comes back empty, the drain fails with the
/// `NotFound` error, wherever in the chain that page stands.
pub proof fn lemma_drain_empty_page<T>(outs: Seq<Result<Page<T>, String>>, op: ListOp, k: int)
    requires
        0 <= k < outs.len(),
        forall|i: int| 0 <= i < k ==> full_page(#[trigger] outs[i]) && has_cursor(outs[i]),
        outs[k] is Ok,
        outs[k]->Ok_0.items@.len() == 0,
    ensures
        drain_spec(outs, op) == Err::<Seq<T>, ErrorModel>(
            ErrorModel { kind: ErrorKind::NotFound, message: not_found_message(op) },
        ),
    decreases k,
{
    if k > 0 {
        let rest = outs.skip(1);
        assert forall|i: int| 0 <= i < k - 1 implies full_page(#[trigger] rest[i]) && has_cursor(
            rest[i],
        ) by {
            assert(rest[i] == outs[i + 1]);
        }
        assert(rest[k - 1] == outs[k]);
        lemma_drain_empty_page(rest, op, k - 1);
    }
}

/// If the remote call for some page of the chain fails, the drain fails with
/// the `RemoteError` error naming the operation and the upstream detail, and
/// no answer past that page is consulted.
pub proof fn lemma_drain_remote_failure<T>(outs: Seq<Result<Page<T>, String>>, op: ListOp, k: int)
    requires
        0 <= k < outs.len(),
        forall|i: int| 0 <= i < k ==> full_page(#[trigger] outs[i]) && has_cursor(outs[i]),
        outs[k] is Err,
    ensures
        drain_spec(outs, op) == Err::<Seq<T>, ErrorModel>(
            ErrorModel {
                kind: ErrorKind::RemoteError,
                message: remote_error_prefix(op) + outs[k]->Err_0@,
            },
        ),
        drain_spec(outs, op) == drain_spec(outs.take(k + 1), op),
    decreases k,
{
    let cut = outs.take(k + 1);
    if k == 0 {
        assert(cut[0] == outs[0]);
    } else {
        let rest = outs.skip(1);
        assert forall|i: int| 0 <= i < k - 1 implies full_page(#[trigger] rest[i]) && has_cursor(
            rest[i],
        ) by {
            assert(rest[i] == outs[i + 1]);
        }
        assert(rest[k - 1] == outs[k]);
        lemma_drain_remote_failure(rest, op, k - 1);
        assert(cut[0] == outs[0]);
        assert(cut.skip(1) =~= rest.take(k));
    }
}

} // verus!
