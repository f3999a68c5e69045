//! The service's two canonical orderings.
//!
//! Repositories order ascending by name, comparing names lexicographically
//! by unicode scalar value; an absent name orders after every present name,
//! so absent-name entries always group at the end.  Images order descending
//! by push time, an absent push time counting as epoch `0` and therefore
//! ordering as oldest.  Both orders are total preorders, which the sorter
//! relies on.

use vstd::prelude::*;
use vstd::relations::{strongly_connected, transitive};
use vstd::string::StrSliceExecFns;

use crate::registry::{Image, Repository};

verus! {

/// Lexicographic "less than or equal" over character sequences, comparing
/// unicode scalar values; a prefix orders before every extension of it.
pub open spec fn lex_le(a: Seq<char>, b: Seq<char>) -> bool
    decreases a.len(),
{
    if a.len() == 0 {
        true
    } else if b.len() == 0 {
        false
    } else if (a[0] as u32) < (b[0] as u32) {
        true
    } else if (b[0] as u32) < (a[0] as u32) {
        false
    } else {
        lex_le(a.skip(1), b.skip(1))
    }
}

/// Lexicographic comparison is reflexive.
pub proof fn lemma_lex_le_refl(a: Seq<char>)
    ensures
        lex_le(a, a),
    decreases a.len(),
{
    if a.len() > 0 {
        lemma_lex_le_refl(a.skip(1));
    }
}

/// A character sequence as the unicode scalar values the ordering compares.
pub open spec fn scalar_view(a: Seq<char>) -> Seq<u32> {
    a.map_values(|c: char| c as u32)
}

/// Two character sequences that compare both ways agree scalar for scalar.
pub proof fn lemma_lex_le_antisymmetric(a: Seq<char>, b: Seq<char>)
    requires
        lex_le(a, b),
        lex_le(b, a),
    ensures
        scalar_view(a) == scalar_view(b),
    decreases a.len(),
{
    if a.len() == 0 {
        assert(b.len() == 0);
        assert(scalar_view(a) =~= scalar_view(b));
    } else {
        lemma_lex_le_antisymmetric(a.skip(1), b.skip(1));
        assert(scalar_view(a.skip(1)).len() == a.skip(1).len());
        assert(scalar_view(b.skip(1)).len() == b.skip(1).len());
        assert(a.len() == b.len());
        assert forall|i: int| 0 <= i < a.len() implies scalar_view(a)[i] == scalar_view(b)[i] by {
            if i > 0 {
                assert(a.skip(1)[i - 1] == a[i]);
                assert(b.skip(1)[i - 1] == b[i]);
                assert(scalar_view(a.skip(1))[i - 1] == scalar_view(b.skip(1))[i - 1]);
            }
        }
        assert(scalar_view(a) =~= scalar_view(b));
    }
}

/// Any two character sequences compare one way or the other.
pub proof fn lemma_lex_le_total(a: Seq<char>, b: Seq<char>)
    ensures
        lex_le(a, b) || lex_le(b, a),
    decreases a.len(),
{
    if a.len() > 0 && b.len() > 0 && (a[0] as u32) == (b[0] as u32) {
        lemma_lex_le_total(a.skip(1), b.skip(1));
    }
}

/// Lexicographic comparison is transitive.
pub proof fn lemma_lex_le_trans(a: Seq<char>, b: Seq<char>, c: Seq<char>)
    requires
        lex_le(a, b),
        lex_le(b, c),
    ensures
        lex_le(a, c),
    decreases a.len(),
{
    if a.len() > 0 && b.len() > 0 && c.len() > 0 && (a[0] as u32) == (b[0] as u32) && (b[0] as u32)
        == (c[0] as u32) {
        lemma_lex_le_trans(a.skip(1), b.skip(1), c.skip(1));
    }
}

/// Compares two strings lexicographically by unicode scalar value.
pub fn str_le(a: &str, b: &str) -> (r: bool)
    ensures
        r == lex_le(a@, b@),
{
    let a_len = a.unicode_len();
    let b_len = b.unicode_len();
    let mut i: usize = 0;
    proof {
        assert(a@.skip(0) =~= a@);
        assert(b@.skip(0) =~= b@);
    }
    loop
        invariant
            i <= a_len,
            i <= b_len,
            a_len == a@.len(),
            b_len == b@.len(),
            lex_le(a@, b@) == lex_le(a@.skip(i as int), b@.skip(i as int)),
        decreases a_len - i,
    {
        if i == a_len {
            return true;
        }
        if i == b_len {
            return false;
        }
        let ca = a.get_char(i);
        let cb = b.get_char(i);
        if (ca as u32) < (cb as u32) {
            return true;
        }
        if (cb as u32) < (ca as u32) {
            return false;
        }
        proof {
            assert(a@.skip(i as int).skip(1) =~= a@.skip(i as int + 1));
            assert(b@.skip(i as int).skip(1) =~= b@.skip(i as int + 1));
        }
        i = i + 1;
    }
}

/// A repository's name as the ordering sees it: the character sequence when
/// present.
pub open spec fn name_model(r: Repository) -> Option<Seq<char>> {
    match r.name {
        Some(n) => Some(n@),
        None => None,
    }
}

/// An image's digest as the retention laws see it: the character sequence
/// when present.
pub open spec fn digest_model(img: Image) -> Option<Seq<char>> {
    match img.digest {
        Some(d) => Some(d@),
        None => None,
    }
}

/// The repository ordering: ascending by name, an absent name after every
/// present one, absent names tied among themselves.
pub open spec fn repo_le(a: Repository, b: Repository) -> bool {
    match (a.name, b.name) {
        (Some(x), Some(y)) => lex_le(x@, y@),
        (Some(_), None) => true,
        (None, None) => true,
        (None, Some(_)) => false,
    }
}

/// The repository ordering is a total preorder.
pub proof fn lemma_repo_le_total_preorder()
    ensures
        strongly_connected(|a: Repository, b: Repository| repo_le(a, b)),
        transitive(|a: Repository, b: Repository| repo_le(a, b)),
{
    assert forall|a: Repository, b: Repository|
        #[trigger] repo_le(a, b) || #[trigger] repo_le(b, a) by {
        if a.name is Some && b.name is Some {
            lemma_lex_le_total(a.name->0@, b.name->0@);
        }
    }
    assert forall|a: Repository, b: Repository, c: Repository|
        #[trigger] repo_le(a, b) && #[trigger] repo_le(b, c) implies repo_le(a, c) by {
        if a.name is Some && b.name is Some && c.name is Some {
            lemma_lex_le_trans(a.name->0@, b.name->0@, c.name->0@);
        }
    }
}

/// Compares two repositories in the repository ordering.
pub fn repo_le_exec(a: &Repository, b: &Repository) -> (r: bool)
    ensures
        r == repo_le(*a, *b),
{
    match (&a.name, &b.name) {
        (Some(x), Some(y)) => str_le(x.as_str(), y.as_str()),
        (Some(_), None) => true,
        (None, None) => true,
        (None, Some(_)) => false,
    }
}

/// The push-time key an image sorts by: its push time in epoch seconds, or
/// `0` when absent.
pub open spec fn ts_key(img: Image) -> int {
    match img.pushed_at {
        Some(t) => t as int,
        None => 0,
    }
}

/// The image ordering: descending by push-time key, so the most recently
/// pushed image comes first and images without a push time come last.
pub open spec fn image_le(a: Image, b: Image) -> bool {
    ts_key(a) >= ts_key(b)
}

/// Compares two images in the image ordering.
pub fn image_le_exec(a: &Image, b: &Image) -> (r: bool)
    ensures
        r == image_le(*a, *b),
{
    let ka: i64 = match a.pushed_at {
        Some(t) => t,
        None => 0,
    };
    let kb: i64 = match b.pushed_at {
        Some(t) => t,
        None => 0,
    };
    ka >= kb
}

} // verus!
