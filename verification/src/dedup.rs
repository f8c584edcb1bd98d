//! Deduplication of collected result vectors.
use vstd::prelude::*;
use itertools::Itertools;

verus! {

/// `s` with every repeated identifier removed: each identifier is kept at
/// its first occurrence only.
pub open spec fn dedup_of(s: Seq<usize>) -> Seq<usize>
    decreases s.len(),
{
    if s.len() == 0 {
        Seq::empty()
    } else if s.drop_last().contains(s.last()) {
        dedup_of(s.drop_last())
    } else {
        dedup_of(s.drop_last()).push(s.last())
    }
}

/// Deduplication keeps exactly the members of `s`, once each.
pub proof fn lemma_dedup_of(s: Seq<usize>)
    ensures
        dedup_of(s).no_duplicates(),
        forall|x: usize| dedup_of(s).contains(x) <==> s.contains(x),
    decreases s.len(),
{
    if s.len() > 0 {
        lemma_dedup_of(s.drop_last());
        assert(forall|x: usize|
            s.contains(x) <==> (s.drop_last().contains(x) || x == s.last())) by {
            assert forall|x: usize| s.contains(x) implies (s.drop_last().contains(x) || x
                == s.last()) by {
                let k = choose|k: int| 0 <= k < s.len() && s[k] == x;
                if k < s.len() - 1 {
                    assert(s.drop_last()[k] == x);
                }
            }
            assert forall|x: usize| s.drop_last().contains(x) implies s.contains(x) by {
                let k = choose|k: int| 0 <= k < s.drop_last().len() && s.drop_last()[k] == x;
                assert(s[k] == x);
            }
            assert(s[s.len() - 1] == s.last());
        }
        if !s.drop_last().contains(s.last()) {
            let d = dedup_of(s.drop_last());
            assert forall|i: int, j: int|
                0 <= i < j < d.push(s.last()).len() implies d.push(s.last())[i] != d.push(
                s.last(),
            )[j] by {
                if j < d.len() {
                    assert(d[i] != d[j]);
                } else {
                    assert(d.push(s.last())[j] == s.last());
                    assert(d.push(s.last())[i] == d[i]);
                    assert(d.contains(d[i]));
                }
            }
            assert(forall|x: usize| d.push(s.last()).contains(x) <==> (d.contains(x) || x
                == s.last())) by {
                assert forall|x: usize| d.push(s.last()).contains(x) implies (d.contains(x) || x
                    == s.last()) by {
                    let k = choose|k: int|
                        0 <= k < d.push(s.last()).len() && d.push(s.last())[k] == x;
                    if k < d.len() {
                        assert(d[k] == x);
                    }
                }
                assert forall|x: usize| d.contains(x) implies d.push(s.last()).contains(x) by {
                    let k = choose|k: int| 0 <= k < d.len() && d[k] == x;
                    assert(d.push(s.last())[k] == x);
                }
                assert(d.push(s.last())[d.len() as int] == s.last());
            }
        }
    }
}

/// Membership in a pushed sequence is membership in the sequence or equality
/// with the pushed element.
pub proof fn lemma_push_contains<A>(s: Seq<A>, x: A)
    ensures
        forall|y: A| #[trigger] s.push(x).contains(y) <==> (s.contains(y) || y == x),
{
    assert forall|y: A| #[trigger] s.push(x).contains(y) implies (s.contains(y) || y == x) by {
        let k = choose|k: int| 0 <= k < s.push(x).len() && s.push(x)[k] == y;
        if k < s.len() {
            assert(s[k] == y);
        }
    }
    assert forall|y: A| (s.contains(y) || y == x) implies #[trigger] s.push(x).contains(y) by {
        if s.contains(y) {
            let k = choose|k: int| 0 <= k < s.len() && s[k] == y;
            assert(s.push(x)[k] == y);
        } else {
            assert(s.push(x)[s.len() as int] == x);
        }
    }
}

/// Pushing an element that is not yet present keeps a sequence free of
/// duplicates.
pub proof fn lemma_push_no_dup<A>(s: Seq<A>, x: A)
    requires
        s.no_duplicates(),
        !s.contains(x),
    ensures
        s.push(x).no_duplicates(),
{
    assert forall|i: int, j: int| 0 <= i < j < s.push(x).len() implies s.push(x)[i] != s.push(
        x,
    )[j] by {
        if j < s.len() {
            assert(s[i] != s[j]);
        } else {
            assert(s.push(x)[j] == x);
            assert(s.push(x)[i] == s[i]);
            assert(s.contains(s[i]));
        }
    }
}

/// Relies on `itertools::Itertools::unique`: the adaptor filters out elements
/// that have already been produced once, so each identifier is kept at its
/// first occurrence only, in order.
#[verifier::external_body]
pub(crate) fn unique_ids(v: Vec<usize>) -> (r: Vec<usize>)
    ensures
        r@ == dedup_of(v@),
{
    v.into_iter().unique().collect()
}

} // verus!
