//! Laws of the dictionary, stated over the abstract model and proved once
//! and for all.
use vstd::prelude::*;
use crate::model::{
    all_terms, insert_all, learn_spec, lemma_fuzzy_search_in_all_terms, lemma_insert_all_noop,
    lemma_insert_all_wf, lemma_insert_noop, lemma_insert_wf, lemma_learn_terms_at,
    lemma_prefix_search_in_all_terms, lemma_seek_at_node, node_at, prefix_search, seek,
    strict_search, terms_at, trie_wf, within_depth, Trie,
};
use crate::text::{compact_of, norm_of, words_of};
use crate::trie::{search_spec, SearchKind};

verus! {

/// A learned term is found again: a strict search for the compact normalized
/// form of a learned text returns its identifier — provided the text holds an
/// alphanumeric character at all, since an empty normalized query finds
/// nothing by design.
pub proof fn lemma_learned_term_is_found(t: Trie, text: Seq<char>, id: usize)
    requires
        trie_wf(t),
        compact_of(text).len() > 0,
    ensures
        strict_search(learn_spec(t, text, id), compact_of(text)).contains(id),
{
    let t1 = learn_spec(t, text, id);
    let cq = compact_of(text);
    lemma_learn_terms_at(t, text, id, cq);
    assert(terms_at(t1, cq).contains(id));
    assert(node_at(t1, cq) is Some);
    lemma_seek_at_node(t1, cq);
    let n = match node_at(t1, cq) {
        Some(n) => n,
        None => t1,
    };
    assert(terms_at(n, Seq::<char>::empty()).contains(id));
    assert(within_depth(n, 0).contains(id));
}

/// Learning a term a second time yields the same dictionary as learning it
/// once, and therefore the same result set for every query and search kind.
pub proof fn lemma_learn_idempotent(t: Trie, text: Seq<char>, id: usize)
    requires
        trie_wf(t),
    ensures
        learn_spec(learn_spec(t, text, id), text, id) == learn_spec(t, text, id),
        forall|q: Seq<char>, kind: SearchKind|
            search_spec(learn_spec(learn_spec(t, text, id), text, id), q, kind) == search_spec(
                learn_spec(t, text, id),
                q,
                kind,
            ),
{
    let ps = words_of(text).map_values(|w: Seq<char>| norm_of(w));
    let t1 = learn_spec(t, text, id);
    lemma_insert_all_wf(t, ps, id);
    lemma_insert_wf(insert_all(t, ps, id), compact_of(text), id);
    assert(trie_wf(t1));
    assert forall|k: int| 0 <= k < ps.len() implies terms_at(t1, #[trigger] ps[k]).contains(
        id,
    ) by {
        lemma_learn_terms_at(t, text, id, ps[k]);
        assert(ps.contains(ps[k]));
    }
    lemma_insert_all_noop(t1, ps, id);
    lemma_learn_terms_at(t, text, id, compact_of(text));
    lemma_insert_noop(t1, compact_of(text), id);
}

/// Every identifier a search returns names a learned term: results are always
/// drawn from what the dictionary holds, whatever the search kind.
pub proof fn lemma_search_finds_learned(t: Trie, q: Seq<char>, kind: SearchKind)
    requires
        trie_wf(t),
    ensures
        forall|id: usize|
            #[trigger] search_spec(t, q, kind).contains(id) ==> all_terms(t).contains(id),
{
    match kind {
        SearchKind::Strict => {
            lemma_prefix_search_in_all_terms(t, q, 0);
        },
        SearchKind::Prefix(d) => {
            lemma_prefix_search_in_all_terms(t, q, d as nat);
        },
        SearchKind::Fuzzy(f, pri) => {
            lemma_fuzzy_search_in_all_terms(t, q, f as nat, pri is WordBoundary);
        },
    }
}

/// A prefix search of depth zero is a strict search, for any query and any
/// dictionary.
pub proof fn lemma_prefix_zero_is_strict(t: Trie, q: Seq<char>)
    ensures
        prefix_search(t, q, 0) == strict_search(t, q),
{
}

/// Monotonicity: a deeper prefix search finds every term a shallower one
/// finds, for the same query and dictionary.
pub proof fn lemma_prefix_monotone(t: Trie, q: Seq<char>, d1: nat, d2: nat)
    requires
        d1 <= d2,
    ensures
        prefix_search(t, q, d1).subset_of(prefix_search(t, q, d2)),
{
    if q.len() > 0 {
        match seek(t, q) {
            Some(n) => {
                assert forall|id: usize| within_depth(n, d1).contains(id) implies within_depth(
                    n,
                    d2,
                ).contains(id) by {
                    let p = choose|p: Seq<char>|
                        p.len() <= d1 && #[trigger] terms_at(n, p).contains(id);
                    assert(p.len() <= d2 && terms_at(n, p).contains(id));
                }
            },
            None => {
            },
        }
    }
}

} // verus!
