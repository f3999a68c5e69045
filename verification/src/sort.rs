//! The aggregator/sorter: stable sorts under the two canonical orderings.
//!
//! [`stable_sorted`] is the mathematical sort both executable sorts are held
//! to: each element in turn is inserted into the sorted prefix, after every
//! element it does not strictly precede, so elements that compare as ties
//! keep their input order.  The laws proved here say the result is ordered,
//! is a permutation of the input, and leaves every tie class exactly as the
//! input had it.

use vstd::prelude::*;
use vstd::relations::{sorted_by, strongly_connected, transitive};
use vstd::seq_lib::group_to_multiset_ensures;

use crate::order::{image_le, image_le_exec, repo_le, repo_le_exec};
use crate::registry::{Image, Repository};

verus! {

/// Inserts `x` into `s` after every element less than or equal to it; on a
/// sorted `s` this is the stable insertion position.
pub open spec fn insert_ordered<T>(s: Seq<T>, x: T, leq: spec_fn(T, T) -> bool) -> Seq<T>
    decreases s.len(),
{
    if s.len() == 0 {
        seq![x]
    } else if leq(s.last(), x) {
        s.push(x)
    } else {
        insert_ordered(s.drop_last(), x, leq).push(s.last())
    }
}

/// The stable sort of `s` under `leq`: every element inserted in turn.
pub open spec fn stable_sorted<T>(s: Seq<T>, leq: spec_fn(T, T) -> bool) -> Seq<T>
    decreases s.len(),
{
    if s.len() == 0 {
        Seq::empty()
    } else {
        insert_ordered(stable_sorted(s.drop_last(), leq), s.last(), leq)
    }
}

/// The index at which [`insert_ordered`] places its element.
pub open spec fn insert_point<T>(s: Seq<T>, x: T, leq: spec_fn(T, T) -> bool) -> int
    decreases s.len(),
{
    if s.len() == 0 {
        0
    } else if leq(s.last(), x) {
        s.len() as int
    } else {
        insert_point(s.drop_last(), x, leq)
    }
}

/// Inserting places the element at its insert point: everything at or past
/// that point does not precede-or-tie it, and the element just before it
/// (if any) does.
proof fn lemma_insert_point_props<T>(s: Seq<T>, x: T, leq: spec_fn(T, T) -> bool)
    ensures
        0 <= insert_point(s, x, leq) <= s.len(),
        forall|i: int| insert_point(s, x, leq) <= i < s.len() ==> !#[trigger] leq(s[i], x),
        insert_point(s, x, leq) > 0 ==> leq(s[insert_point(s, x, leq) - 1], x),
        insert_ordered(s, x, leq) == s.insert(insert_point(s, x, leq), x),
    decreases s.len(),
{
    let q = insert_point(s, x, leq);
    if s.len() == 0 {
        assert(s.insert(0, x) =~= seq![x]);
    } else if leq(s.last(), x) {
        assert(s.insert(q, x) =~= s.push(x));
    } else {
        lemma_insert_point_props(s.drop_last(), x, leq);
        assert forall|i: int| q <= i < s.len() implies !#[trigger] leq(s[i], x) by {
            if i < s.len() - 1 {
                assert(s.drop_last()[i] == s[i]);
                assert(!leq(s.drop_last()[i], x));
            }
        }
        assert(insert_ordered(s.drop_last(), x, leq).push(s.last()) =~= s.insert(q, x));
    }
}

/// Inserting into a sorted sequence keeps it sorted, adds exactly the new
/// element to the multiset of elements, and grows the length by one.
proof fn lemma_insert_ordered_props<T>(s: Seq<T>, x: T, leq: spec_fn(T, T) -> bool)
    requires
        strongly_connected(leq),
        transitive(leq),
        sorted_by(s, leq),
    ensures
        sorted_by(insert_ordered(s, x, leq), leq),
        insert_ordered(s, x, leq).to_multiset() == s.to_multiset().insert(x),
        insert_ordered(s, x, leq).len() == s.len() + 1,
    decreases s.len(),
{
    broadcast use group_to_multiset_ensures;

    let result = insert_ordered(s, x, leq);
    if s.len() == 0 {
        assert(seq![x] =~= Seq::<T>::empty().push(x));
        assert(result.to_multiset() =~= s.to_multiset().insert(x));
    } else if leq(s.last(), x) {
        assert forall|i: int, j: int| 0 <= i < j < result.len() implies #[trigger] leq(
            result[i],
            result[j],
        ) by {
            if j < s.len() {
                assert(leq(s[i], s[j]));
            } else if i < s.len() - 1 {
                assert(leq(s[i], s[s.len() - 1]));
                assert(leq(s[s.len() - 1], x));
            }
        }
        assert(result.to_multiset() =~= s.to_multiset().insert(x));
    } else {
        let prefix = s.drop_last();
        assert(sorted_by(prefix, leq)) by {
            assert forall|i: int, j: int| 0 <= i < j < prefix.len() implies #[trigger] leq(
                prefix[i],
                prefix[j],
            ) by {
                assert(leq(s[i], s[j]));
            }
        }
        lemma_insert_ordered_props(prefix, x, leq);
        let inner = insert_ordered(prefix, x, leq);
        assert(s =~= prefix.push(s.last()));
        assert(s.to_multiset() =~= prefix.to_multiset().insert(s.last()));
        assert(result.to_multiset() =~= inner.to_multiset().insert(s.last()));
        assert(result.to_multiset() =~= s.to_multiset().insert(x)) by {
            assert(inner.to_multiset().insert(s.last()) =~= prefix.to_multiset().insert(x).insert(
                s.last(),
            ));
            assert(prefix.to_multiset().insert(x).insert(s.last())
                =~= prefix.to_multiset().insert(s.last()).insert(x));
        }
        assert forall|i: int, j: int| 0 <= i < j < result.len() implies #[trigger] leq(
            result[i],
            result[j],
        ) by {
            if j < inner.len() {
                assert(leq(inner[i], inner[j]));
            } else {
                // `result[j]` is the old last element; every element of
                // `inner` is either `x` or an element of the sorted prefix.
                let y = inner[i];
                assert(inner.contains(y));
                assert(inner.to_multiset().count(y) > 0);
                if y == x {
                    assert(leq(x, s.last()));
                } else {
                    assert(prefix.to_multiset().count(y) > 0);
                    assert(prefix.contains(y));
                    let k = choose|k: int| 0 <= k < prefix.len() && prefix[k] == y;
                    assert(leq(s[k], s[s.len() - 1]));
                }
            }
        }
    }
}

/// The stable sort of any sequence under a total preorder is sorted, is a
/// permutation of the input, and has the input's length.
pub proof fn lemma_stable_sorted_props<T>(s: Seq<T>, leq: spec_fn(T, T) -> bool)
    requires
        strongly_connected(leq),
        transitive(leq),
    ensures
        sorted_by(stable_sorted(s, leq), leq),
        stable_sorted(s, leq).to_multiset() == s.to_multiset(),
        stable_sorted(s, leq).len() == s.len(),
    decreases s.len(),
{
    broadcast use group_to_multiset_ensures;

    if s.len() == 0 {
        assert(stable_sorted(s, leq).to_multiset() =~= s.to_multiset());
    } else {
        let prefix = s.drop_last();
        lemma_stable_sorted_props(prefix, leq);
        lemma_insert_ordered_props(stable_sorted(prefix, leq), s.last(), leq);
        assert(s =~= prefix.push(s.last()));
        assert(s.to_multiset() =~= prefix.to_multiset().insert(s.last()));
        assert(stable_sorted(s, leq).to_multiset() =~= stable_sorted(prefix, leq).to_multiset()
            .insert(s.last()));
    }
}

/// Inserting an element of a tie class appends it to the class's filtered
/// subsequence; inserting anything else leaves that subsequence unchanged.
proof fn lemma_insert_ordered_filter<T>(
    s: Seq<T>,
    x: T,
    leq: spec_fn(T, T) -> bool,
    class: spec_fn(T) -> bool,
)
    requires
        class(x) ==> (forall|y: T| #[trigger] class(y) ==> leq(y, x)),
    ensures
        insert_ordered(s, x, leq).filter(class) == (if class(x) {
            s.filter(class).push(x)
        } else {
            s.filter(class)
        }),
{
    broadcast use vstd::seq_lib::group_filter_ensures;

    lemma_insert_point_props(s, x, leq);
    let q = insert_point(s, x, leq);
    let head = s.take(q);
    let tail = s.skip(q);
    assert(s.insert(q, x) =~= head + (seq![x] + tail));
    assert(s =~= head + tail);
    Seq::filter_distributes_over_add(head, seq![x] + tail, class);
    Seq::filter_distributes_over_add(seq![x], tail, class);
    Seq::filter_distributes_over_add(head, tail, class);
    assert(seq![x] =~= Seq::<T>::empty().push(x));
    reveal_with_fuel(Seq::filter, 2);
    if class(x) {
        assert(seq![x].filter(class) =~= seq![x]);
        assert forall|i: int| 0 <= i < tail.len() implies !class(#[trigger] tail[i]) by {
            assert(!leq(s[q + i], x));
        }
        tail.lemma_all_neg_filter_empty(class);
        assert(insert_ordered(s, x, leq).filter(class) =~= s.filter(class).push(x));
    } else {
        assert(seq![x].filter(class) =~= Seq::<T>::empty());
        assert(insert_ordered(s, x, leq).filter(class) =~= s.filter(class));
    }
}

/// The sort is stable: for any tie class (a set of elements that all
/// compare less-than-or-equal to one another), the filtered subsequence of
/// the sorted output equals the filtered subsequence of the input.
pub proof fn lemma_stable_sorted_stable<T>(
    s: Seq<T>,
    leq: spec_fn(T, T) -> bool,
    class: spec_fn(T) -> bool,
)
    requires
        forall|y: T, z: T| #[trigger] class(y) && #[trigger] class(z) ==> leq(y, z),
    ensures
        stable_sorted(s, leq).filter(class) == s.filter(class),
    decreases s.len(),
{
    reveal_with_fuel(Seq::filter, 2);
    if s.len() == 0 {
        assert(stable_sorted(s, leq).filter(class) =~= s.filter(class));
    } else {
        let prefix = s.drop_last();
        lemma_stable_sorted_stable(prefix, leq, class);
        lemma_insert_ordered_filter(stable_sorted(prefix, leq), s.last(), leq, class);
    }
}

/// The repository ordering as the sorter's comparison.
pub open spec fn repo_order() -> spec_fn(Repository, Repository) -> bool {
    |a: Repository, b: Repository| repo_le(a, b)
}

/// The image ordering as the sorter's comparison.
pub open spec fn image_order() -> spec_fn(Image, Image) -> bool {
    |a: Image, b: Image| image_le(a, b)
}

/// Inserts one repository at its stable position.
fn insert_repository(sorted: &mut Vec<Repository>, x: Repository)
    ensures
        final (sorted)@ == insert_ordered(old(sorted)@, x, repo_order()),
{
    let mut p = sorted.len();
    while p > 0 && !repo_le_exec(&sorted[p - 1], &x)
        invariant
            p <= sorted@.len(),
            sorted@ == old(sorted)@,
            forall|i: int| p <= i < sorted@.len() ==> !#[trigger] repo_le(sorted@[i], x),
        decreases p,
    {
        p = p - 1;
    }
    proof {
        lemma_insert_point_props(sorted@, x, repo_order());
        lemma_insert_unique_point(sorted@, x, repo_order(), p as int);
    }
    sorted.insert(p, x);
}

/// Inserts one image at its stable position.
fn insert_image(sorted: &mut Vec<Image>, x: Image)
    ensures
        final (sorted)@ == insert_ordered(old(sorted)@, x, image_order()),
{
    let mut p = sorted.len();
    while p > 0 && !image_le_exec(&sorted[p - 1], &x)
        invariant
            p <= sorted@.len(),
            sorted@ == old(sorted)@,
            forall|i: int| p <= i < sorted@.len() ==> !#[trigger] image_le(sorted@[i], x),
        decreases p,
    {
        p = p - 1;
    }
    proof {
        lemma_insert_point_props(sorted@, x, image_order());
        lemma_insert_unique_point(sorted@, x, image_order(), p as int);
    }
    sorted.insert(p, x);
}

/// Any index with the insert point's boundary properties is the insert
/// point: inserting there yields [`insert_ordered`].
proof fn lemma_insert_unique_point<T>(s: Seq<T>, x: T, leq: spec_fn(T, T) -> bool, p: int)
    requires
        0 <= p <= s.len(),
        forall|i: int| p <= i < s.len() ==> !#[trigger] leq(s[i], x),
        p > 0 ==> leq(s[p - 1], x),
    ensures
        insert_ordered(s, x, leq) == s.insert(p, x),
{
    lemma_insert_point_props(s, x, leq);
    let q = insert_point(s, x, leq);
    if p < q {
        assert(leq(s[q - 1], x));
        assert(!leq(s[q - 1], x));
    }
    if q < p {
        assert(leq(s[p - 1], x));
        assert(!leq(s[p - 1], x));
    }
}

/// Sorting keeps an already-sorted sequence unchanged.
pub proof fn lemma_stable_sorted_fixed<T>(s: Seq<T>, leq: spec_fn(T, T) -> bool)
    requires
        sorted_by(s, leq),
    ensures
        stable_sorted(s, leq) == s,
    decreases s.len(),
{
    if s.len() == 0 {
        assert(stable_sorted(s, leq) =~= s);
    } else {
        let prefix = s.drop_last();
        assert(sorted_by(prefix, leq)) by {
            assert forall|i: int, j: int| 0 <= i < j < prefix.len() implies #[trigger] leq(
                prefix[i],
                prefix[j],
            ) by {
                assert(leq(s[i], s[j]));
            }
        }
        lemma_stable_sorted_fixed(prefix, leq);
        if prefix.len() == 0 {
            assert(stable_sorted(s, leq) =~= s);
        } else {
            assert(leq(s[s.len() - 2], s[s.len() - 1]));
            assert(stable_sorted(s, leq) =~= prefix.push(s.last()));
            assert(prefix.push(s.last()) =~= s);
        }
    }
}

/// The class of repositories whose name model equals `name`; a tie class of
/// the repository ordering.
pub open spec fn repo_name_class(name: Option<Seq<char>>) -> spec_fn(Repository) -> bool {
    |r: Repository| crate::order::name_model(r) == name
}

/// The class of images whose push-time key equals `key`; a tie class of the
/// image ordering.
pub open spec fn image_ts_class(key: int) -> spec_fn(Image) -> bool {
    |im: Image| crate::order::ts_key(im) == key
}

/// Law: in the sorted repository list, an entry with a present name
/// precedes an entry with a different present name exactly when its name is
/// lexicographically smaller; here, the earlier of two distinctly-named
/// entries carries the strictly smaller name.  Names are distinguished by
/// their unicode scalar values, which is how the ordering compares them.
pub proof fn lemma_repo_sort_strict(repositories: Seq<Repository>, i: int, j: int)
    requires
        0 <= i < j < stable_sorted(repositories, repo_order()).len(),
        stable_sorted(repositories, repo_order())[i].name is Some,
        stable_sorted(repositories, repo_order())[j].name is Some,
        crate::order::scalar_view(stable_sorted(repositories, repo_order())[i].name->0@)
            != crate::order::scalar_view(stable_sorted(repositories, repo_order())[j].name->0@),
    ensures
        crate::order::lex_le(
            stable_sorted(repositories, repo_order())[i].name->0@,
            stable_sorted(repositories, repo_order())[j].name->0@,
        ),
        !crate::order::lex_le(
            stable_sorted(repositories, repo_order())[j].name->0@,
            stable_sorted(repositories, repo_order())[i].name->0@,
        ),
{
    crate::order::lemma_repo_le_total_preorder();
    lemma_stable_sorted_props(repositories, repo_order());
    let s = stable_sorted(repositories, repo_order());
    let leq = repo_order();
    assert(leq(s[i], s[j]));
    let a = s[i].name->0@;
    let b = s[j].name->0@;
    if crate::order::lex_le(b, a) {
        crate::order::lemma_lex_le_antisymmetric(a, b);
    }
}

/// Law: in the sorted repository list, every entry after an absent-name
/// entry also has an absent name — absent names always group at the end.
pub proof fn lemma_repo_sort_absent_last(repositories: Seq<Repository>, i: int, j: int)
    requires
        0 <= i < j < stable_sorted(repositories, repo_order()).len(),
        stable_sorted(repositories, repo_order())[i].name is None,
    ensures
        stable_sorted(repositories, repo_order())[j].name is None,
{
    crate::order::lemma_repo_le_total_preorder();
    lemma_stable_sorted_props(repositories, repo_order());
    let s = stable_sorted(repositories, repo_order());
    let leq = repo_order();
    assert(leq(s[i], s[j]));
}

/// Law: the repository sort keeps equal-named entries in their input order.
pub proof fn lemma_repo_sort_stable(repositories: Seq<Repository>, name: Option<Seq<char>>)
    ensures
        stable_sorted(repositories, repo_order()).filter(repo_name_class(name))
            == repositories.filter(repo_name_class(name)),
{
    let class = repo_name_class(name);
    assert forall|y: Repository, z: Repository|
        #[trigger] class(y) && #[trigger] class(z) implies repo_order()(y, z) by {
        if y.name is Some {
            crate::order::lemma_lex_le_refl(y.name->0@);
        }
    }
    lemma_stable_sorted_stable(repositories, repo_order(), class);
}

/// Law: in the sorted image list, the image at an earlier position was
/// pushed no earlier than the image at a later position — larger timestamps
/// precede, and an absent timestamp counts as epoch `0`.
pub proof fn lemma_image_sort_descending(images: Seq<Image>, i: int, j: int)
    requires
        0 <= i < j < stable_sorted(images, image_order()).len(),
    ensures
        crate::order::ts_key(stable_sorted(images, image_order())[i]) >= crate::order::ts_key(
            stable_sorted(images, image_order())[j],
        ),
{
    lemma_stable_sorted_props(images, image_order());
    let s = stable_sorted(images, image_order());
    let leq = image_order();
    assert(leq(s[i], s[j]));
}

/// Law: the image sort keeps images with equal push-time keys in their
/// input order.
pub proof fn lemma_image_sort_stable(images: Seq<Image>, key: int)
    ensures
        stable_sorted(images, image_order()).filter(image_ts_class(key)) == images.filter(
            image_ts_class(key),
        ),
{
    lemma_stable_sorted_stable(images, image_order(), image_ts_class(key));
}

/// Sorts repositories ascending by name, absent names last, stably.
pub fn sort_repositories(repositories: Vec<Repository>) -> (r: Vec<Repository>)
    ensures
        r@ == stable_sorted(repositories@, repo_order()),
        sorted_by(r@, repo_order()),
        r@.to_multiset() == repositories@.to_multiset(),
{
    proof {
        crate::order::lemma_repo_le_total_preorder();
        lemma_stable_sorted_props(repositories@, repo_order());
    }
    let ghost orig = repositories@;
    let mut rest = repositories;
    let mut sorted: Vec<Repository> = Vec::new();
    let ghost mut done: int = 0;
    proof {
        assert(orig.skip(0) =~= orig);
        assert(orig.take(0) =~= Seq::<Repository>::empty());
    }
    while rest.len() > 0
        invariant
            orig == repositories@,
            0 <= done <= orig.len(),
            rest@ == orig.skip(done),
            sorted@ == stable_sorted(orig.take(done), repo_order()),
        decreases orig.len() - done,
    {
        let x = rest.remove(0);
        insert_repository(&mut sorted, x);
        proof {
            assert(x == orig[done]);
            assert(orig.skip(done).remove(0) =~= orig.skip(done + 1));
            done = done + 1;
            assert(orig.take(done).drop_last() =~= orig.take(done - 1));
            assert(orig.take(done).last() == orig[done - 1]);
        }
    }
    proof {
        assert(orig.take(orig.len() as int) =~= orig);
    }
    sorted
}

/// Sorts images descending by push time, newest first, absent push times
/// counting as epoch `0`, stably.
pub fn sort_images(images: Vec<Image>) -> (r: Vec<Image>)
    ensures
        r@ == stable_sorted(images@, image_order()),
        sorted_by(r@, image_order()),
        r@.to_multiset() == images@.to_multiset(),
{
    proof {
        lemma_stable_sorted_props(images@, image_order());
    }
    let ghost orig = images@;
    let mut rest = images;
    let mut sorted: Vec<Image> = Vec::new();
    let ghost mut done: int = 0;
    proof {
        assert(orig.skip(0) =~= orig);
        assert(orig.take(0) =~= Seq::<Image>::empty());
    }
    while rest.len() > 0
        invariant
            orig == images@,
            0 <= done <= orig.len(),
            rest@ == orig.skip(done),
            sorted@ == stable_sorted(orig.take(done), image_order()),
        decreases orig.len() - done,
    {
        let x = rest.remove(0);
        insert_image(&mut sorted, x);
        proof {
            assert(x == orig[done]);
            assert(orig.skip(done).remove(0) =~= orig.skip(done + 1));
            done = done + 1;
            assert(orig.take(done).drop_last() =~= orig.take(done - 1));
            assert(orig.take(done).last() == orig[done - 1]);
        }
    }
    proof {
        assert(orig.take(orig.len() as int) =~= orig);
    }
    sorted
}

} // verus!
