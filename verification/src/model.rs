//! Mathematical model of the dictionary: an abstract character trie, the
//! effect of learning a term, and the result sets of the three search kinds.
use vstd::prelude::*;
use crate::text::{compact_of, norm_of, words_of};

verus! {

/// Abstract trie node: the identifiers of the terms whose indexed paths end
/// here, and the labelled children in insertion order.
#[verifier::ext_equal]
pub ghost struct Trie {
    pub terms: Seq<usize>,
    pub children: Seq<(char, Trie)>,
}

/// The model of a node with no terms and no children.
pub open spec fn empty_trie() -> Trie {
    Trie { terms: Seq::empty(), children: Seq::empty() }
}

/// Labels of the children are pairwise distinct, at every node of the tree,
/// so that an edge label identifies at most one child.
pub open spec fn trie_wf(t: Trie) -> bool
    decreases t,
{
    &&& (forall|i: int, j: int|
        0 <= i < j < t.children.len() ==> (#[trigger] t.children[i]).0 != (
        #[trigger] t.children[j]).0)
    &&& (forall|i: int| 0 <= i < t.children.len() ==> trie_wf((#[trigger] t.children[i]).1))
}

/// Position of the first child edge labelled `c` in the row `s`, or -1 if
/// none is.
pub open spec fn index_of_child(s: Seq<(char, Trie)>, c: char) -> int
    decreases s.len(),
{
    if s.len() == 0 {
        -1
    } else if s[0].0 == c {
        0
    } else {
        let r: int = index_of_child(s.drop_first(), c);
        if r < 0 {
            -1
        } else {
            r + 1
        }
    }
}

/// Whether some child edge of `t` is labelled `c`.
pub open spec fn has_child(t: Trie, c: char) -> bool {
    index_of_child(t.children, c) >= 0
}

/// Position of the child edge labelled `c` (meaningful when `has_child`).
pub open spec fn child_index(t: Trie, c: char) -> int {
    index_of_child(t.children, c)
}

/// The child of `t` along the edge labelled `c`, if any.
pub open spec fn child_of(t: Trie, c: char) -> Option<Trie> {
    if has_child(t, c) {
        Some(t.children[child_index(t, c)].1)
    } else {
        None
    }
}

/// What `index_of_child` finds: the first position labelled `c`, if any.
pub proof fn lemma_index_of_child(s: Seq<(char, Trie)>, c: char)
    ensures
        index_of_child(s, c) >= 0 ==> {
            let r = index_of_child(s, c);
            &&& 0 <= r < s.len()
            &&& s[r].0 == c
            &&& forall|k: int| 0 <= k < r ==> (#[trigger] s[k]).0 != c
        },
        index_of_child(s, c) < 0 ==> forall|k: int|
            0 <= k < s.len() ==> (#[trigger] s[k]).0 != c,
    decreases s.len(),
{
    if s.len() > 0 && s[0].0 != c {
        lemma_index_of_child(s.drop_first(), c);
        assert(forall|k: int|
            1 <= k < s.len() ==> #[trigger] s[k] == s.drop_first()[k - 1]);
    }
}

/// In a row with pairwise distinct labels, a position labelled `c` is the
/// position `index_of_child` finds.
pub proof fn lemma_index_of_child_unique(s: Seq<(char, Trie)>, c: char, j: int)
    requires
        forall|i: int, k: int|
            0 <= i < k < s.len() ==> (#[trigger] s[i]).0 != (#[trigger] s[k]).0,
        0 <= j < s.len(),
        s[j].0 == c,
    ensures
        index_of_child(s, c) == j,
{
    lemma_index_of_child(s, c);
    let r = index_of_child(s, c);
    if r < 0 {
        assert(s[j].0 != c);
    } else if r < j {
        assert(s[r].0 != s[j].0);
    } else if j < r {
        assert(s[j].0 != c);
    }
}

/// Two rows with the same labels in the same order agree on `index_of_child`.
pub proof fn lemma_index_same_labels(s1: Seq<(char, Trie)>, s2: Seq<(char, Trie)>, c: char)
    requires
        s1.len() == s2.len(),
        forall|k: int| 0 <= k < s1.len() ==> (#[trigger] s1[k]).0 == (#[trigger] s2[k]).0,
    ensures
        index_of_child(s1, c) == index_of_child(s2, c),
    decreases s1.len(),
{
    if s1.len() > 0 {
        assert(forall|k: int|
            0 <= k < s1.drop_first().len() ==> (#[trigger] s1.drop_first()[k]).0 == (
            #[trigger] s2.drop_first()[k]).0) by {
            assert(forall|k: int|
                0 <= k < s1.drop_first().len() ==> s1.drop_first()[k] == s1[k + 1]
                    && s2.drop_first()[k] == s2[k + 1]);
        }
        lemma_index_same_labels(s1.drop_first(), s2.drop_first(), c);
    }
}

/// The node reached from `t` by following the edges labelled by `p`.
pub open spec fn node_at(t: Trie, p: Seq<char>) -> Option<Trie>
    decreases p.len(),
{
    if p.len() == 0 {
        Some(t)
    } else {
        match child_of(t, p[0]) {
            None => None,
            Some(c) => node_at(c, p.drop_first()),
        }
    }
}

/// The identifiers stored exactly at the end of path `p` (empty if no node
/// lies there).
pub open spec fn terms_at(t: Trie, p: Seq<char>) -> Set<usize> {
    match node_at(t, p) {
        None => Set::empty(),
        Some(n) => n.terms.to_set(),
    }
}

/// All identifiers stored within `d` levels below `t` (the node itself is
/// level zero).
pub open spec fn within_depth(t: Trie, d: nat) -> Set<usize> {
    Set::new(|id: usize| exists|p: Seq<char>| p.len() <= d && #[trigger] terms_at(t, p).contains(id))
}

/// All identifiers stored anywhere in the subtree rooted at `t`.
pub open spec fn all_terms(t: Trie) -> Set<usize> {
    Set::new(|id: usize| exists|p: Seq<char>| #[trigger] terms_at(t, p).contains(id))
}

/// Terms reachable from `t` within the optional depth bound (`None` means
/// unbounded).
pub open spec fn reach_terms(t: Trie, depth: Option<usize>) -> Set<usize> {
    match depth {
        Some(d) => within_depth(t, d as nat),
        None => all_terms(t),
    }
}

/// Terms within depth `d` of one of the first `j` children of `t`.
pub open spec fn kids_within_upto(t: Trie, d: nat, j: int) -> Set<usize> {
    Set::new(
        |id: usize|
            exists|m: int|
                0 <= m < j && (#[trigger] within_depth(t.children[m].1, d)).contains(id),
    )
}

/// Terms anywhere below one of the first `j` children of `t`.
pub open spec fn kids_all_upto(t: Trie, j: int) -> Set<usize> {
    Set::new(
        |id: usize|
            exists|m: int| 0 <= m < j && (#[trigger] all_terms(t.children[m].1)).contains(id),
    )
}

/// The terms within depth `d` of `t` are its own terms and, when `d` is
/// positive, the terms within depth `d - 1` of its children.
pub proof fn lemma_within_depth_unfold(t: Trie, d: nat)
    requires
        trie_wf(t),
    ensures
        within_depth(t, d) == t.terms.to_set().union(
            if d == 0 {
                Set::<usize>::empty()
            } else {
                kids_within_upto(t, (d - 1) as nat, t.children.len() as int)
            },
        ),
{
    let rhs = t.terms.to_set().union(
        if d == 0 {
            Set::<usize>::empty()
        } else {
            kids_within_upto(t, (d - 1) as nat, t.children.len() as int)
        },
    );
    assert forall|id: usize| within_depth(t, d).contains(id) implies rhs.contains(id) by {
        let p = choose|p: Seq<char>| p.len() <= d && #[trigger] terms_at(t, p).contains(id);
        if p.len() == 0 {
            assert(p =~= Seq::<char>::empty());
            assert(t.terms.to_set().contains(id));
        } else {
            let c = p[0];
            lemma_index_of_child(t.children, c);
            let j = index_of_child(t.children, c);
            assert(node_at(t, p) is Some);
            assert(j >= 0);
            let ch = t.children[j].1;
            assert(terms_at(ch, p.drop_first()).contains(id));
            assert(p.drop_first().len() <= d - 1);
            assert(within_depth(ch, (d - 1) as nat).contains(id));
        }
    }
    assert forall|id: usize| rhs.contains(id) implies within_depth(t, d).contains(id) by {
        if t.terms.to_set().contains(id) {
            assert(terms_at(t, Seq::<char>::empty()).contains(id));
        } else {
            let m = choose|m: int|
                0 <= m < t.children.len() && (#[trigger] within_depth(
                    t.children[m].1,
                    (d - 1) as nat,
                )).contains(id);
            let ch = t.children[m].1;
            let pd = choose|pd: Seq<char>|
                pd.len() <= d - 1 && #[trigger] terms_at(ch, pd).contains(id);
            let c = t.children[m].0;
            lemma_index_of_child_unique(t.children, c, m);
            let p = seq![c].add(pd);
            assert(p[0] == c);
            assert(p.drop_first() =~= pd);
            assert(node_at(t, p) == node_at(ch, pd));
            assert(terms_at(t, p).contains(id));
        }
    }
    assert(within_depth(t, d) =~= rhs);
}

/// The terms below `t` are its own terms and the terms below its children.
pub proof fn lemma_all_terms_unfold(t: Trie)
    requires
        trie_wf(t),
    ensures
        all_terms(t) == t.terms.to_set().union(kids_all_upto(t, t.children.len() as int)),
{
    let rhs = t.terms.to_set().union(kids_all_upto(t, t.children.len() as int));
    assert forall|id: usize| all_terms(t).contains(id) implies rhs.contains(id) by {
        let p = choose|p: Seq<char>| #[trigger] terms_at(t, p).contains(id);
        if p.len() == 0 {
            assert(p =~= Seq::<char>::empty());
            assert(t.terms.to_set().contains(id));
        } else {
            let c = p[0];
            lemma_index_of_child(t.children, c);
            let j = index_of_child(t.children, c);
            assert(node_at(t, p) is Some);
            assert(j >= 0);
            let ch = t.children[j].1;
            assert(terms_at(ch, p.drop_first()).contains(id));
            assert(all_terms(ch).contains(id));
        }
    }
    assert forall|id: usize| rhs.contains(id) implies all_terms(t).contains(id) by {
        if t.terms.to_set().contains(id) {
            assert(terms_at(t, Seq::<char>::empty()).contains(id));
        } else {
            let m = choose|m: int|
                0 <= m < t.children.len() && (#[trigger] all_terms(t.children[m].1)).contains(id);
            let ch = t.children[m].1;
            let pd = choose|pd: Seq<char>| #[trigger] terms_at(ch, pd).contains(id);
            let c = t.children[m].0;
            lemma_index_of_child_unique(t.children, c, m);
            let p = seq![c].add(pd);
            assert(p[0] == c);
            assert(p.drop_first() =~= pd);
            assert(node_at(t, p) == node_at(ch, pd));
            assert(terms_at(t, p).contains(id));
        }
    }
    assert(all_terms(t) =~= rhs);
}

/// `t` with `id` recorded at the end of path `p`, the missing nodes of the
/// path created, and nothing else changed. Recording an identifier already
/// present at the final node changes nothing.
pub open spec fn trie_insert(t: Trie, p: Seq<char>, id: usize) -> Trie
    decreases p.len(),
{
    if p.len() == 0 {
        if t.terms.contains(id) {
            t
        } else {
            Trie { terms: t.terms.push(id), children: t.children }
        }
    } else {
        let c = p[0];
        if has_child(t, c) {
            let j = child_index(t, c);
            Trie {
                terms: t.terms,
                children: t.children.update(j, (c, trie_insert(t.children[j].1, p.drop_first(), id))),
            }
        } else {
            Trie {
                terms: t.terms,
                children: t.children.push((c, trie_insert(empty_trie(), p.drop_first(), id))),
            }
        }
    }
}

/// Membership in a nonempty sequence is equality with the head or membership
/// in the tail.
pub proof fn lemma_contains_head_tail<A>(s: Seq<A>)
    requires
        s.len() > 0,
    ensures
        forall|x: A| s.contains(x) <==> (x == s[0] || s.drop_first().contains(x)),
{
    assert forall|x: A| s.contains(x) implies (x == s[0] || s.drop_first().contains(x)) by {
        let k = choose|k: int| 0 <= k < s.len() && s[k] == x;
        if k > 0 {
            assert(s.drop_first()[k - 1] == x);
        }
    }
    assert forall|x: A| (x == s[0] || s.drop_first().contains(x)) implies s.contains(x) by {
        if s.drop_first().contains(x) {
            let k = choose|k: int| 0 <= k < s.drop_first().len() && s.drop_first()[k] == x;
            assert(s[k + 1] == x);
        }
    }
}

/// Two nonempty sequences with the same head and the same tail are the same.
pub proof fn lemma_eq_head_tail(q: Seq<char>, p: Seq<char>)
    requires
        q.len() > 0,
        p.len() > 0,
        q[0] == p[0],
        q.drop_first() == p.drop_first(),
    ensures
        q == p,
{
    assert(q =~= p) by {
        assert(q.drop_first().len() == q.len() - 1);
        assert(p.drop_first().len() == p.len() - 1);
        assert(q.len() == p.len());
        assert(forall|k: int| 1 <= k < q.len() ==> q[k] == q.drop_first()[k - 1]);
        assert(forall|k: int| 1 <= k < p.len() ==> p[k] == p.drop_first()[k - 1]);
    }
}

/// Nodes with the same children are reached by the same nonempty paths.
pub proof fn lemma_node_at_same_children(t1: Trie, t2: Trie, q: Seq<char>)
    requires
        t1.children == t2.children,
        q.len() > 0,
    ensures
        node_at(t1, q) == node_at(t2, q),
{
}

/// Where a pushed child row is looked up: an existing label is found where it
/// was; the new label is found at the end.
pub proof fn lemma_index_push(s: Seq<(char, Trie)>, x: (char, Trie), c: char)
    ensures
        index_of_child(s.push(x), c) == (if index_of_child(s, c) >= 0 {
            index_of_child(s, c)
        } else if x.0 == c {
            s.len() as int
        } else {
            -1
        }),
        forall|k: int| 0 <= k < s.len() ==> s.push(x)[k] == s[k],
        s.push(x)[s.len() as int] == x,
    decreases s.len(),
{
    if s.len() == 0 {
        assert(s.push(x)[0] == x);
        if x.0 != c {
            assert(s.push(x).drop_first() =~= Seq::<(char, Trie)>::empty());
            assert(Seq::<(char, Trie)>::empty().len() == 0);
            assert(index_of_child(Seq::<(char, Trie)>::empty(), c) == -1);
            assert(index_of_child(s.push(x).drop_first(), c) == -1);
            assert(index_of_child(s.push(x), c) == -1);
        }
    } else {
        lemma_index_push(s.drop_first(), x, c);
        assert(s.push(x).drop_first() =~= s.drop_first().push(x));
        assert(s.push(x)[0] == s[0]);
    }
}

/// What recording `id` at the end of `p` does to the terms of every path:
/// `id` is added at `p`, and every other path keeps its terms.
pub proof fn lemma_insert_terms_at(t: Trie, p: Seq<char>, id: usize, q: Seq<char>)
    requires
        trie_wf(t),
    ensures
        terms_at(trie_insert(t, p, id), q) == (if q == p {
            terms_at(t, q).insert(id)
        } else {
            terms_at(t, q)
        }),
    decreases p.len(),
{
    let r = trie_insert(t, p, id);
    if p.len() == 0 {
        if q.len() == 0 {
            assert(q =~= p);
            if t.terms.contains(id) {
                assert(t.terms.to_set().insert(id) =~= t.terms.to_set());
            } else {
                crate::dedup::lemma_push_contains(t.terms, id);
                assert(r.terms.to_set() =~= t.terms.to_set().insert(id));
            }
        } else {
            assert(q != p);
            assert(r.children == t.children);
            lemma_node_at_same_children(r, t, q);
        }
    } else {
        if q.len() == 0 {
            assert(q != p);
            assert(node_at(r, q) == Some(r));
            assert(r.terms == t.terms);
        } else {
            let c = p[0];
            let q0 = q[0];
            lemma_index_of_child(t.children, c);
            lemma_index_of_child(t.children, q0);
            if has_child(t, c) {
                let j = child_index(t, c);
                let ch = t.children[j].1;
                let sub = trie_insert(ch, p.drop_first(), id);
                assert(r.children == t.children.update(j, (c, sub)));
                assert(forall|k: int|
                    0 <= k < r.children.len() ==> (#[trigger] r.children[k]).0
                        == t.children[k].0);
                lemma_index_same_labels(t.children, r.children, q0);
                lemma_index_of_child(r.children, q0);
                assert(trie_wf(ch));
                if q0 == c {
                    assert(index_of_child(r.children, q0) == j);
                    assert(child_of(r, q0) == Some(sub));
                    assert(child_of(t, q0) == Some(ch));
                    lemma_insert_terms_at(ch, p.drop_first(), id, q.drop_first());
                    assert(terms_at(r, q) == terms_at(sub, q.drop_first()));
                    assert(terms_at(t, q) == terms_at(ch, q.drop_first()));
                    if q.drop_first() == p.drop_first() {
                        lemma_eq_head_tail(q, p);
                    } else {
                        assert(q != p);
                    }
                } else {
                    assert(q != p);
                    let m = index_of_child(t.children, q0);
                    if m >= 0 {
                        assert(t.children[m].0 == q0);
                        assert(m != j);
                        assert(r.children[m] == t.children[m]);
                        assert(child_of(r, q0) == Some(t.children[m].1));
                        assert(child_of(t, q0) == Some(t.children[m].1));
                        assert(terms_at(r, q) == terms_at(t.children[m].1, q.drop_first()));
                        assert(terms_at(t, q) == terms_at(t.children[m].1, q.drop_first()));
                    } else {
                        assert(child_of(t, q0) is None);
                        assert(child_of(r, q0) is None);
                        assert(terms_at(r, q) =~= terms_at(t, q));
                    }
                }
            } else {
                let sub = trie_insert(empty_trie(), p.drop_first(), id);
                assert(r.children == t.children.push((c, sub)));
                lemma_index_push(t.children, (c, sub), q0);
                if q0 == c {
                    assert(index_of_child(t.children, c) < 0);
                    assert(index_of_child(r.children, q0) == t.children.len() as int);
                    assert(child_of(r, q0) == Some(sub));
                    assert(child_of(t, q0) is None);
                    assert(terms_at(t, q) =~= Set::<usize>::empty());
                    assert(trie_wf(empty_trie()));
                    lemma_insert_terms_at(empty_trie(), p.drop_first(), id, q.drop_first());
                    assert(terms_at(empty_trie(), q.drop_first()) =~= Set::<usize>::empty()) by {
                        if q.drop_first().len() == 0 {
                            assert(node_at(empty_trie(), q.drop_first()) == Some(empty_trie()));
                            assert(forall|x: usize| !Seq::<usize>::empty().contains(x));
                        } else {
                            assert(index_of_child(empty_trie().children, q.drop_first()[0]) == -1);
                            assert(node_at(empty_trie(), q.drop_first()) is None);
                        }
                    }
                    assert(terms_at(r, q) == terms_at(sub, q.drop_first()));
                    if q.drop_first() == p.drop_first() {
                        lemma_eq_head_tail(q, p);
                        assert(terms_at(r, q) =~= terms_at(t, q).insert(id));
                    } else {
                        assert(q != p);
                        assert(terms_at(r, q) =~= terms_at(t, q));
                    }
                } else {
                    assert(q != p);
                    let m = index_of_child(t.children, q0);
                    assert(index_of_child(r.children, q0) == m);
                    if m >= 0 {
                        assert(t.children[m].0 == q0);
                        assert(r.children[m] == t.children[m]);
                        assert(child_of(r, q0) == Some(t.children[m].1));
                        assert(child_of(t, q0) == Some(t.children[m].1));
                        assert(terms_at(r, q) == terms_at(t.children[m].1, q.drop_first()));
                        assert(terms_at(t, q) == terms_at(t.children[m].1, q.drop_first()));
                    } else {
                        assert(child_of(t, q0) is None);
                        assert(child_of(r, q0) is None);
                        assert(terms_at(r, q) =~= terms_at(t, q));
                    }
                }
            }
        }
    }
}

/// Recording an identifier keeps the tree well-formed.
pub proof fn lemma_insert_wf(t: Trie, p: Seq<char>, id: usize)
    requires
        trie_wf(t),
    ensures
        trie_wf(trie_insert(t, p, id)),
    decreases p.len(),
{
    let r = trie_insert(t, p, id);
    if p.len() == 0 {
        assert(r.children == t.children);
    } else {
        let c = p[0];
        lemma_index_of_child(t.children, c);
        if has_child(t, c) {
            let j = child_index(t, c);
            lemma_insert_wf(t.children[j].1, p.drop_first(), id);
            assert(forall|k: int|
                0 <= k < r.children.len() ==> (#[trigger] r.children[k]).0 == t.children[k].0);
            assert(forall|k: int|
                0 <= k < r.children.len() ==> trie_wf((#[trigger] r.children[k]).1)) by {
                assert(forall|k: int|
                    0 <= k < r.children.len() && k != j ==> (#[trigger] r.children[k]).1
                        == t.children[k].1);
            }
        } else {
            assert(trie_wf(empty_trie()));
            lemma_insert_wf(empty_trie(), p.drop_first(), id);
            assert(forall|k: int|
                0 <= k < t.children.len() ==> (#[trigger] r.children[k]) == t.children[k]);
            assert(forall|k: int| 0 <= k < t.children.len() ==> (#[trigger] t.children[k]).0 != c);
        }
    }
}

/// `t` with `id` recorded at the end of every path in `ps`, in order.
pub open spec fn insert_all(t: Trie, ps: Seq<Seq<char>>, id: usize) -> Trie
    decreases ps.len(),
{
    if ps.len() == 0 {
        t
    } else {
        insert_all(trie_insert(t, ps[0], id), ps.drop_first(), id)
    }
}

/// Recording an identifier at several paths keeps the tree well-formed.
pub proof fn lemma_insert_all_wf(t: Trie, ps: Seq<Seq<char>>, id: usize)
    requires
        trie_wf(t),
    ensures
        trie_wf(insert_all(t, ps, id)),
    decreases ps.len(),
{
    if ps.len() > 0 {
        lemma_insert_wf(t, ps[0], id);
        lemma_insert_all_wf(trie_insert(t, ps[0], id), ps.drop_first(), id);
    }
}

/// The effect of learning a term with text `text` under identifier `id`:
/// the identifier is recorded at the normalized path of every word of the
/// text, and at the compact path of the whole text.
pub open spec fn learn_spec(t: Trie, text: Seq<char>, id: usize) -> Trie {
    trie_insert(insert_all(t, words_of(text).map_values(|w: Seq<char>| norm_of(w)), id), compact_of(text), id)
}

/// What recording an identifier at several paths does to the terms of every
/// path: the identifier is added at each of those paths and nowhere else.
pub proof fn lemma_insert_all_terms_at(t: Trie, ps: Seq<Seq<char>>, id: usize, q: Seq<char>)
    requires
        trie_wf(t),
    ensures
        terms_at(insert_all(t, ps, id), q) == (if ps.contains(q) {
            terms_at(t, q).insert(id)
        } else {
            terms_at(t, q)
        }),
    decreases ps.len(),
{
    if ps.len() == 0 {
        assert(!ps.contains(q));
    } else {
        let t1 = trie_insert(t, ps[0], id);
        lemma_insert_terms_at(t, ps[0], id, q);
        lemma_insert_wf(t, ps[0], id);
        lemma_insert_all_terms_at(t1, ps.drop_first(), id, q);
        lemma_contains_head_tail(ps);
        if q == ps[0] && ps.drop_first().contains(q) {
            assert(terms_at(t, q).insert(id).insert(id) =~= terms_at(t, q).insert(id));
        }
    }
}

/// Whether `q` is one of the paths at which learning `text` records a term:
/// the normalized path of one of its words, or its compact path.
pub open spec fn is_learn_path(text: Seq<char>, q: Seq<char>) -> bool {
    words_of(text).map_values(|w: Seq<char>| norm_of(w)).contains(q) || q == compact_of(text)
}

/// What learning a term does to the terms of every path: the identifier is
/// added at each of the term's learn paths; every other path keeps its terms.
pub proof fn lemma_learn_terms_at(t: Trie, text: Seq<char>, id: usize, q: Seq<char>)
    requires
        trie_wf(t),
    ensures
        terms_at(learn_spec(t, text, id), q) == (if is_learn_path(text, q) {
            terms_at(t, q).insert(id)
        } else {
            terms_at(t, q)
        }),
{
    let ps = words_of(text).map_values(|w: Seq<char>| norm_of(w));
    let t1 = insert_all(t, ps, id);
    lemma_insert_all_terms_at(t, ps, id, q);
    lemma_insert_all_wf(t, ps, id);
    lemma_insert_terms_at(t1, compact_of(text), id, q);
    if q == compact_of(text) && ps.contains(q) {
        assert(terms_at(t, q).insert(id).insert(id) =~= terms_at(t, q).insert(id));
    }
}

/// Every identifier present after learning was present before, or is the
/// learned one.
pub proof fn lemma_learn_all_terms(t: Trie, text: Seq<char>, id: usize)
    requires
        trie_wf(t),
    ensures
        forall|x: usize|
            #[trigger] all_terms(learn_spec(t, text, id)).contains(x) ==> (all_terms(t).contains(
                x,
            ) || x == id),
{
    assert forall|x: usize|
        #[trigger] all_terms(learn_spec(t, text, id)).contains(x) && x != id implies all_terms(
        t,
    ).contains(x) by {
        let p = choose|p: Seq<char>| #[trigger] terms_at(learn_spec(t, text, id), p).contains(x);
        lemma_learn_terms_at(t, text, id, p);
        assert(terms_at(t, p).contains(x));
    }
}

/// Recording an identifier that is already recorded at the end of `p`
/// changes nothing.
pub proof fn lemma_insert_noop(t: Trie, p: Seq<char>, id: usize)
    requires
        trie_wf(t),
        terms_at(t, p).contains(id),
    ensures
        trie_insert(t, p, id) == t,
    decreases p.len(),
{
    let r = trie_insert(t, p, id);
    if p.len() == 0 {
        assert(node_at(t, p) == Some(t));
        assert(t.terms.to_set().contains(id));
    } else {
        assert(node_at(t, p) is Some);
        let c = p[0];
        lemma_index_of_child(t.children, c);
        assert(has_child(t, c));
        let j = child_index(t, c);
        let ch = t.children[j].1;
        assert(terms_at(ch, p.drop_first()).contains(id));
        assert(trie_wf(ch));
        lemma_insert_noop(ch, p.drop_first(), id);
        assert(r.children == t.children.update(j, (c, ch)));
        assert(t.children.update(j, (c, ch)) =~~= t.children);
        assert(r =~= t);
    }
}

/// Re-recording an identifier at paths that all hold it already changes
/// nothing.
pub proof fn lemma_insert_all_noop(t: Trie, ps: Seq<Seq<char>>, id: usize)
    requires
        trie_wf(t),
        forall|k: int| 0 <= k < ps.len() ==> terms_at(t, #[trigger] ps[k]).contains(id),
    ensures
        insert_all(t, ps, id) == t,
    decreases ps.len(),
{
    if ps.len() > 0 {
        lemma_insert_noop(t, ps[0], id);
        assert(forall|k: int|
            0 <= k < ps.drop_first().len() ==> #[trigger] ps.drop_first()[k] == ps[k + 1]);
        lemma_insert_all_noop(t, ps.drop_first(), id);
    }
}

/// The node where a traversal of the whole query `q` ends. A missing edge
/// before the last character fails the traversal; a missing edge at the last
/// character consumes that character without moving.
pub open spec fn seek(t: Trie, q: Seq<char>) -> Option<Trie>
    decreases q.len(),
{
    if q.len() == 0 {
        Some(t)
    } else if q.len() == 1 {
        match child_of(t, q[0]) {
            Some(c) => Some(c),
            None => Some(t),
        }
    } else {
        match child_of(t, q[0]) {
            Some(c) => seek(c, q.drop_first()),
            None => None,
        }
    }
}

/// A traversal of a query whose full path exists in the tree ends at that
/// path's node.
pub proof fn lemma_seek_at_node(t: Trie, q: Seq<char>)
    requires
        node_at(t, q) is Some,
    ensures
        seek(t, q) == node_at(t, q),
    decreases q.len(),
{
    if q.len() > 0 {
        match child_of(t, q[0]) {
            Some(c) => {
                if q.len() > 1 {
                    lemma_seek_at_node(c, q.drop_first());
                } else {
                    assert(q.drop_first().len() == 0);
                }
            },
            None => {
                assert(node_at(t, q) is None);
            },
        }
    }
}

/// A one-character path reaches exactly the child along that edge.
pub proof fn lemma_node_at_single(t: Trie, c: char)
    ensures
        node_at(t, seq![c]) == child_of(t, c),
{
    assert(seq![c].len() == 1);
    assert(seq![c][0] == c);
    match child_of(t, c) {
        Some(ch) => {
            assert(seq![c].drop_first() =~= Seq::<char>::empty());
            assert(node_at(ch, seq![c].drop_first()) == Some(ch));
        },
        None => {},
    }
}

/// Following one path and then another is following their concatenation.
pub proof fn lemma_node_at_compose(t: Trie, a: Seq<char>, b: Seq<char>)
    ensures
        node_at(t, a + b) == (match node_at(t, a) {
            Some(n) => node_at(n, b),
            None => None::<Trie>,
        }),
    decreases a.len(),
{
    if a.len() == 0 {
        assert(a + b =~= b);
    } else {
        assert((a + b)[0] == a[0]);
        assert((a + b).len() > 0);
        match child_of(t, a[0]) {
            Some(c) => {
                assert((a + b).drop_first() =~= a.drop_first() + b);
                lemma_node_at_compose(c, a.drop_first(), b);
            },
            None => {},
        }
    }
}

/// Every node reached by a path of a well-formed tree is well-formed.
pub proof fn lemma_node_at_wf(t: Trie, p: Seq<char>, n: Trie)
    requires
        trie_wf(t),
        node_at(t, p) == Some(n),
    ensures
        trie_wf(n),
    decreases p.len(),
{
    if p.len() > 0 {
        match child_of(t, p[0]) {
            Some(c) => {
                lemma_index_of_child(t.children, p[0]);
                assert(trie_wf(c));
                lemma_node_at_wf(c, p.drop_first(), n);
            },
            None => {},
        }
    }
}

/// A term below a node reached by a path is below the root.
pub proof fn lemma_all_terms_compose(t: Trie, p: Seq<char>, n: Trie)
    requires
        node_at(t, p) == Some(n),
    ensures
        forall|id: usize| all_terms(n).contains(id) ==> all_terms(t).contains(id),
{
    assert forall|id: usize| all_terms(n).contains(id) implies all_terms(t).contains(id) by {
        let p2 = choose|p2: Seq<char>| #[trigger] terms_at(n, p2).contains(id);
        lemma_node_at_compose(t, p, p2);
        assert(terms_at(t, p + p2).contains(id));
    }
}

/// A node that the bounded depth-first search finds is reached by some path.
pub proof fn lemma_hope_reachable(t: Trie, c: char, f: nat, n: Trie)
    requires
        trie_wf(t),
        hope(t, c, f) == Some(n),
    ensures
        exists|p: Seq<char>| node_at(t, p) == Some(n),
    decreases f, t.children.len(), 1int,
{
    assert(t.children.skip(0) =~= t.children);
    lemma_hope_children_reachable(t, 0, c, f, n);
}

/// The walk of `hope` over the row of children starting at position `j`
/// only finds nodes reached by some path.
pub proof fn lemma_hope_children_reachable(t: Trie, j: int, c: char, f: nat, n: Trie)
    requires
        trie_wf(t),
        0 <= j <= t.children.len(),
        f >= 1,
        hope_children(t.children.skip(j), c, f) == Some(n),
    ensures
        exists|p: Seq<char>| node_at(t, p) == Some(n),
    decreases f, t.children.len() - j, 0int,
{
    let s = t.children.skip(j);
    assert(s.len() == t.children.len() - j);
    assert(s.len() > 0);
    assert(s[0] == t.children[j]);
    let label = t.children[j].0;
    let ch = t.children[j].1;
    if s[0].0 == c {
        lemma_index_of_child_unique(t.children, c, j);
        assert(child_of(t, c) == Some(n));
        lemma_node_at_single(t, c);
        assert(node_at(t, seq![c]) == Some(n));
    } else {
        match hope(ch, c, (f - 1) as nat) {
            Some(r) => {
                assert(trie_wf(ch));
                lemma_hope_reachable(ch, c, (f - 1) as nat, n);
                let p2 = choose|p2: Seq<char>| node_at(ch, p2) == Some(n);
                lemma_index_of_child_unique(t.children, label, j);
                assert(child_of(t, label) == Some(ch));
                lemma_node_at_single(t, label);
                assert(node_at(t, seq![label]) == Some(ch));
                lemma_node_at_compose(t, seq![label], p2);
                assert(node_at(t, seq![label] + p2) == Some(n));
            },
            None => {
                assert(s.drop_first() =~= t.children.skip(j + 1));
                lemma_hope_children_reachable(t, j + 1, c, f, n);
            },
        }
    }
}

/// The node where a query traversal ends is reached by some path.
pub proof fn lemma_seek_reachable(t: Trie, q: Seq<char>, n: Trie)
    requires
        seek(t, q) == Some(n),
    ensures
        exists|p: Seq<char>| node_at(t, p) == Some(n),
    decreases q.len(),
{
    if q.len() == 0 {
        assert(node_at(t, Seq::<char>::empty()) == Some(n));
    } else if q.len() == 1 {
        match child_of(t, q[0]) {
            Some(c) => {
                lemma_node_at_single(t, q[0]);
                assert(node_at(t, seq![q[0]]) == Some(n));
            },
            None => {
                assert(node_at(t, Seq::<char>::empty()) == Some(n));
            },
        }
    } else {
        match child_of(t, q[0]) {
            Some(c) => {
                lemma_seek_reachable(c, q.drop_first(), n);
                let p2 = choose|p2: Seq<char>| node_at(c, p2) == Some(n);
                lemma_node_at_single(t, q[0]);
                assert(node_at(t, seq![q[0]]) == Some(c));
                lemma_node_at_compose(t, seq![q[0]], p2);
                assert(node_at(t, seq![q[0]] + p2) == Some(n));
            },
            None => {},
        }
    }
}

/// The cursor of the fuzzy traversal stays at nodes reached by some path, and
/// stays well-formed.
pub proof fn lemma_fuzzy_walk_reachable(
    root: Trie,
    st: FuzzState,
    q: Seq<char>,
    i: int,
    fuzz: nat,
    wb: bool,
)
    requires
        trie_wf(root),
        trie_wf(st.cur),
        0 <= i <= q.len(),
        exists|p: Seq<char>| node_at(root, p) == Some(st.cur),
    ensures
        exists|p: Seq<char>| node_at(root, p) == Some(fuzzy_walk(root, st, q, i, fuzz, wb).cur),
    decreases q.len() - i,
{
    if i < q.len() {
        let c = q[i];
        match child_of(st.cur, c) {
            Some(ch) => {
                let p0 = choose|p0: Seq<char>| node_at(root, p0) == Some(st.cur);
                lemma_node_at_single(st.cur, c);
                assert(node_at(st.cur, seq![c]) == Some(ch));
                lemma_node_at_compose(root, p0, seq![c]);
                assert(node_at(root, p0 + seq![c]) == Some(ch));
                lemma_node_at_wf(st.cur, seq![c], ch);
                lemma_fuzzy_walk_reachable(
                    root,
                    FuzzState { cur: ch, restrict: st.restrict },
                    q,
                    i + 1,
                    fuzz,
                    wb,
                );
            },
            None => {
                if i == q.len() - 1 {
                    lemma_fuzzy_walk_reachable(root, st, q, i + 1, fuzz, wb);
                } else {
                    let rs = match st.restrict {
                        None => all_terms(st.cur),
                        Some(r) => r,
                    };
                    let next = if wb {
                        match hope(root, c, 1) {
                            Some(alt) => if !all_terms(alt).intersect(rs).is_empty() {
                                alt
                            } else {
                                st.cur
                            },
                            None => st.cur,
                        }
                    } else {
                        match hope(st.cur, c, fuzz) {
                            Some(alt) => alt,
                            None => match hope(root, c, 1) {
                                Some(alt) => alt,
                                None => st.cur,
                            },
                        }
                    };
                    assert(exists|p: Seq<char>| node_at(root, p) == Some(next) && trie_wf(next))
                        by {
                        if next == st.cur {
                            let p0 = choose|p0: Seq<char>| node_at(root, p0) == Some(st.cur);
                            assert(node_at(root, p0) == Some(next) && trie_wf(next));
                        } else if hope(root, c, 1) == Some(next) {
                            lemma_hope_reachable(root, c, 1, next);
                            let p1 = choose|p1: Seq<char>| node_at(root, p1) == Some(next);
                            lemma_node_at_wf(root, p1, next);
                            assert(node_at(root, p1) == Some(next) && trie_wf(next));
                        } else {
                            lemma_hope_reachable(st.cur, c, fuzz, next);
                            let p2 = choose|p2: Seq<char>| node_at(st.cur, p2) == Some(next);
                            let p0 = choose|p0: Seq<char>| node_at(root, p0) == Some(st.cur);
                            lemma_node_at_compose(root, p0, p2);
                            lemma_node_at_wf(root, p0 + p2, next);
                            assert(node_at(root, p0 + p2) == Some(next) && trie_wf(next));
                        }
                    }
                    let p3 = choose|p3: Seq<char>|
                        node_at(root, p3) == Some(next) && trie_wf(next);
                    lemma_fuzzy_walk_reachable(
                        root,
                        FuzzState { cur: next, restrict: Some(rs) },
                        q,
                        i + 1,
                        fuzz,
                        wb,
                    );
                }
            },
        }
    }
}

/// Every identifier a fuzzy search returns is below the root: a fuzzy search
/// only finds learned terms.
pub proof fn lemma_fuzzy_search_in_all_terms(root: Trie, q: Seq<char>, fuzz: nat, wb: bool)
    requires
        trie_wf(root),
    ensures
        forall|id: usize|
            #[trigger] fuzzy_search(root, q, fuzz, wb).contains(id) ==> all_terms(root).contains(
                id,
            ),
{
    assert(node_at(root, Seq::<char>::empty()) == Some(root));
    lemma_fuzzy_walk_reachable(
        root,
        FuzzState { cur: root, restrict: None },
        q,
        0,
        fuzz,
        wb,
    );
    lemma_fuzzy_walk_reachable(
        root,
        FuzzState { cur: root, restrict: None },
        q,
        0,
        fuzz,
        true,
    );
    let fin0 = fuzzy_walk(root, FuzzState { cur: root, restrict: None }, q, 0, fuzz, wb).cur;
    let p0 = choose|p: Seq<char>| node_at(root, p) == Some(fin0);
    lemma_all_terms_compose(root, p0, fin0);
    let fin1 = fuzzy_walk(root, FuzzState { cur: root, restrict: None }, q, 0, fuzz, true).cur;
    let p1 = choose|p: Seq<char>| node_at(root, p) == Some(fin1);
    lemma_all_terms_compose(root, p1, fin1);
}

/// Every identifier a prefix search returns is below the root: a prefix
/// search only finds learned terms.
pub proof fn lemma_prefix_search_in_all_terms(root: Trie, q: Seq<char>, d: nat)
    requires
        trie_wf(root),
    ensures
        forall|id: usize|
            #[trigger] prefix_search(root, q, d).contains(id) ==> all_terms(root).contains(id),
{
    if q.len() > 0 {
        match seek(root, q) {
            Some(n) => {
                lemma_seek_reachable(root, q, n);
                let p = choose|p: Seq<char>| node_at(root, p) == Some(n);
                lemma_all_terms_compose(root, p, n);
                assert forall|id: usize| #[trigger] prefix_search(root, q, d).contains(
                    id,
                ) implies all_terms(root).contains(id) by {
                    let p2 = choose|p2: Seq<char>|
                        p2.len() <= d && #[trigger] terms_at(n, p2).contains(id);
                    assert(all_terms(n).contains(id));
                }
            },
            None => {},
        }
    }
}

/// Result set of a prefix search for the (normalized) query `q` with
/// collection depth `d`. An empty normalized query finds nothing.
pub open spec fn prefix_search(t: Trie, q: Seq<char>, d: nat) -> Set<usize> {
    if q.len() == 0 {
        Set::empty()
    } else {
        match seek(t, q) {
            None => Set::empty(),
            Some(n) => within_depth(n, d),
        }
    }
}

/// Result set of a strict search: only the terms stored exactly at the node
/// where the query traversal ends.
pub open spec fn strict_search(t: Trie, q: Seq<char>) -> Set<usize> {
    prefix_search(t, q, 0)
}

/// First node whose incoming edge is labelled `c`, found by a depth-first
/// walk of at most `fuzz` hops below `t`, children in order.
pub open spec fn hope(t: Trie, c: char, fuzz: nat) -> Option<Trie>
    decreases fuzz, t.children.len(), 1int,
{
    if fuzz == 0 {
        None
    } else {
        hope_children(t.children, c, fuzz)
    }
}

/// The depth-first walk of `hope` over a row of children. `fuzz` is at least
/// one hop: reaching any child in the row consumes one.
pub open spec fn hope_children(s: Seq<(char, Trie)>, c: char, fuzz: nat) -> Option<Trie>
    decreases fuzz, s.len(), 0int,
{
    if s.len() == 0 || fuzz == 0 {
        None
    } else if s[0].0 == c {
        Some(s[0].1)
    } else {
        match hope(s[0].1, c, (fuzz - 1) as nat) {
            Some(r) => Some(r),
            None => hope_children(s.drop_first(), c, fuzz),
        }
    }
}

/// One step of the fuzzy traversal state: the cursor node and the restriction
/// set, if one has been captured.
pub ghost struct FuzzState {
    pub cur: Trie,
    pub restrict: Option<Set<usize>>,
}

/// The fuzzy traversal of `q` from position `i` onward. On a mismatch before
/// the last character the first mismatch captures the restriction set, then
/// the cursor recovers: with word-boundary priority (`wb`), by a one-hop
/// search from the root accepted only when consistent with the restriction;
/// with typo-correction priority, by a `fuzz`-bounded search below the cursor,
/// then the root search, accepting either. A failed recovery absorbs the
/// character. A mismatch at the last character absorbs it as well.
pub open spec fn fuzzy_walk(
    root: Trie,
    st: FuzzState,
    q: Seq<char>,
    i: int,
    fuzz: nat,
    wb: bool,
) -> FuzzState
    decreases q.len() - i,
    when 0 <= i <= q.len()
{
    if i >= q.len() {
        st
    } else {
        let c = q[i];
        match child_of(st.cur, c) {
            Some(ch) => fuzzy_walk(root, FuzzState { cur: ch, restrict: st.restrict }, q, i + 1, fuzz, wb),
            None => {
                if i == q.len() - 1 {
                    fuzzy_walk(root, st, q, i + 1, fuzz, wb)
                } else {
                    let rs = match st.restrict {
                        None => all_terms(st.cur),
                        Some(r) => r,
                    };
                    let next = if wb {
                        match hope(root, c, 1) {
                            Some(alt) => if !all_terms(alt).intersect(rs).is_empty() {
                                alt
                            } else {
                                st.cur
                            },
                            None => st.cur,
                        }
                    } else {
                        match hope(st.cur, c, fuzz) {
                            Some(alt) => alt,
                            None => match hope(root, c, 1) {
                                Some(alt) => alt,
                                None => st.cur,
                            },
                        }
                    };
                    fuzzy_walk(root, FuzzState { cur: next, restrict: Some(rs) }, q, i + 1, fuzz, wb)
                }
            },
        }
    }
}

/// Result set of one fuzzy traversal: every term below the final cursor,
/// filtered by the restriction set if one was captured.
pub open spec fn fuzzy_once(root: Trie, q: Seq<char>, fuzz: nat, wb: bool) -> Set<usize> {
    let st = fuzzy_walk(root, FuzzState { cur: root, restrict: None }, q, 0, fuzz, wb);
    match st.restrict {
        None => all_terms(st.cur),
        Some(rs) => all_terms(st.cur).intersect(rs),
    }
}

/// Result set of a fuzzy search. Typo-correction priority retries once with
/// word-boundary priority when its own result is empty; word-boundary
/// priority never retries. An empty normalized query finds nothing.
pub open spec fn fuzzy_search(root: Trie, q: Seq<char>, fuzz: nat, wb: bool) -> Set<usize> {
    if q.len() == 0 {
        Set::empty()
    } else if !wb && fuzzy_once(root, q, fuzz, false).is_empty() {
        fuzzy_once(root, q, fuzz, true)
    } else {
        fuzzy_once(root, q, fuzz, wb)
    }
}

} // verus!
