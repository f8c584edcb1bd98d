//! The character trie that indexes learned terms.
//!
//! Terms are held by an interning dictionary as plain values; the trie nodes
//! store only integer term identifiers. Each node maps a normalized character
//! to one exclusively owned child node.
use vstd::prelude::*;
use crate::dedup::{lemma_dedup_of, lemma_push_contains, lemma_push_no_dup, unique_ids};
use crate::model::{
    all_terms, child_of, empty_trie, fuzzy_once, fuzzy_search, fuzzy_walk, hope, hope_children,
    index_of_child, insert_all, kids_all_upto, kids_within_upto, learn_spec,
    lemma_all_terms_unfold, lemma_index_of_child, lemma_insert_all_wf, lemma_insert_wf,
    lemma_within_depth_unfold, prefix_search, reach_terms, seek, strict_search, trie_insert,
    trie_wf, within_depth, FuzzState, Trie,
};
use crate::text::{compact_text, norm_of, normalize, split_words, words_of};

verus! {

/// Priority for the fuzzy algorithm.
pub enum FuzzPriority {
    /// When an unexpected character is found, prefer to treat it as a word
    /// boundary.
    WordBoundary,
    /// When an unexpected character is found, prefer to treat it as a typo.
    /// Falls back to `WordBoundary` if nothing is found, thus may be slower,
    /// but more precise.
    TypoCorrection,
}

/// Search algorithm choice.
pub enum SearchKind {
    /// Search for an exact match.
    Strict,
    /// Search for a prefix match with the specified collection depth.
    Prefix(usize),
    /// Search for a fuzzy prefix match with the specified fuzz budget.
    Fuzzy(usize, FuzzPriority),
}

/// Result set of a search for the already-normalized query `q` in `t`.
pub open spec fn search_spec(t: Trie, q: Seq<char>, kind: SearchKind) -> Set<usize> {
    match kind {
        SearchKind::Strict => strict_search(t, q),
        SearchKind::Prefix(d) => prefix_search(t, q, d as nat),
        SearchKind::Fuzzy(f, pri) => fuzzy_search(t, q, f as nat, pri is WordBoundary),
    }
}

/// One fuzzy search retries once; every other search runs once.
pub open spec fn kind_rank(kind: SearchKind) -> int {
    match kind {
        SearchKind::Fuzzy(_, FuzzPriority::TypoCorrection) => 1int,
        _ => 0int,
    }
}

/// The restriction set captured so far, if any.
pub open spec fn restrict_view(captured: bool, restrict: Seq<usize>) -> Option<Set<usize>> {
    if captured {
        Some(restrict.to_set())
    } else {
        None
    }
}

/// A node of the character trie. `terms` holds the identifiers of the terms
/// whose indexed paths end at this node; `children` maps each outgoing edge
/// label to the child node, one entry per label.
pub struct WordListNode {
    terms: Vec<usize>,
    children: Vec<(char, WordListNode)>,
}

impl WordListNode {
    /// The abstract trie represented by this node.
    pub closed spec fn view_spec(self) -> Trie
        decreases self, 1int,
    {
        Trie { terms: self.terms@, children: Self::view_children(self.children@) }
    }

    /// The abstract children of a node, in order.
    pub closed spec fn view_children(s: Seq<(char, WordListNode)>) -> Seq<(char, Trie)>
        decreases s, 0int,
    {
        if s.len() == 0 {
            Seq::empty()
        } else {
            Self::view_children(s.drop_last()).push((s.last().0, s.last().1.view_spec()))
        }
    }

    /// Creates an empty wordlist node.
    pub fn new() -> (node: Self)
        ensures
            node.view_spec() == empty_trie(),
            trie_wf(node.view_spec()),
    {
        let node = WordListNode { terms: Vec::new(), children: Vec::new() };
        proof {
            assert(node.view_spec().terms =~= Seq::<usize>::empty());
            assert(node.view_spec().children =~= Seq::<(char, Trie)>::empty());
        }
        node
    }

    /// The view of a row of children is the row of the views, pointwise.
    pub proof fn lemma_view_children(s: Seq<(char, WordListNode)>)
        ensures
            Self::view_children(s).len() == s.len(),
            forall|k: int|
                0 <= k < s.len() ==> #[trigger] Self::view_children(s)[k] == (
                s[k].0,
                s[k].1.view_spec(),
                ),
        decreases s.len(),
    {
        if s.len() > 0 {
            Self::lemma_view_children(s.drop_last());
            assert(forall|k: int| 0 <= k < s.len() - 1 ==> #[trigger] s.drop_last()[k] == s[k]);
        }
    }

    /// Position of the first child edge labelled `c`, if any.
    fn find_child_index(&self, c: char) -> (r: Option<usize>)
        ensures
            match r {
                Some(j) => j < self.children@.len() && self.children@[j as int].0 == c
                    && index_of_child(self.view_spec().children, c) == j as int,
                None => index_of_child(self.view_spec().children, c) < 0,
            },
    {
        let ghost s = self.view_spec().children;
        proof {
            Self::lemma_view_children(self.children@);
            lemma_index_of_child(s, c);
        }
        let mut j: usize = 0;
        while j < self.children.len()
            invariant
                j <= self.children@.len(),
                s == self.view_spec().children,
                forall|k: int| 0 <= k < j ==> (#[trigger] self.children@[k]).0 != c,
            decreases self.children@.len() - j,
        {
            if self.children[j].0 == c {
                proof {
                    Self::lemma_view_children(self.children@);
                    lemma_index_of_child(s, c);
                    assert(self.children@[j as int].0 == c);
                    assert(s == Self::view_children(self.children@));
                    assert(s[j as int] == (
                        self.children@[j as int].0,
                        self.children@[j as int].1.view_spec(),
                    ));
                    assert(s[j as int].0 == c);
                    let r = index_of_child(s, c);
                    if r < 0 {
                        assert(s[j as int].0 != c);
                    } else if r < j as int {
                        assert(self.children@[r].0 == c);
                    } else if (j as int) < r {
                        assert(s[j as int].0 != c);
                    }
                }
                return Some(j);
            }
            j += 1;
        }
        proof {
            Self::lemma_view_children(self.children@);
            lemma_index_of_child(s, c);
            let r = index_of_child(s, c);
            if r >= 0 {
                assert(self.children@[r].0 == c);
            }
        }
        None
    }

    /// Records `id` at the end of the path `path[i..]` below this node,
    /// creating the missing nodes of the path.
    fn insert_path(&mut self, path: &Vec<char>, i: usize, id: usize)
        requires
            i <= path@.len(),
        ensures
            final(self).view_spec() == trie_insert(
                old(self).view_spec(),
                path@.skip(i as int),
                id,
            ),
        decreases path@.len() - i,
    {
        let ghost t = self.view_spec();
        let ghost p = path@.skip(i as int);
        if i == path.len() {
            proof {
                assert(p =~= Seq::<char>::empty());
            }
            if !contains_id(&self.terms, id) {
                let ghost old_children = self.children@;
                self.terms.push(id);
                proof {
                    assert(self.children@ == old_children);
                }
            }
        } else {
            let c: char = path[i];
            proof {
                assert(p.len() > 0);
                assert(p[0] == c);
                assert(p.drop_first() =~= path@.skip(i + 1));
            }
            match self.find_child_index(c) {
                Some(j) => {
                    let ghost old_children = self.children@;
                    let (label, mut child) = self.children.remove(j);
                    let ghost child0 = child.view_spec();
                    child.insert_path(path, i + 1, id);
                    self.children.insert(j, (label, child));
                    proof {
                        assert(label == c);
                        assert(self.children@ =~= old_children.update(
                            j as int,
                            (c, child),
                        ));
                        Self::lemma_view_children(old_children);
                        Self::lemma_view_children(self.children@);
                        assert(child0 == t.children[j as int].1);
                        assert(Self::view_children(self.children@) =~= t.children.update(
                            j as int,
                            (c, trie_insert(child0, p.drop_first(), id)),
                        ));
                    }
                },
                None => {
                    let ghost old_children = self.children@;
                    let mut child = WordListNode::new();
                    child.insert_path(path, i + 1, id);
                    self.children.push((c, child));
                    proof {
                        assert(self.children@.drop_last() =~= old_children);
                        assert(self.children@.last() == (c, child));
                        assert(Self::view_children(self.children@) == Self::view_children(
                            old_children,
                        ).push((c, child.view_spec())));
                    }
                },
            }
        }
    }

    /// Indexes one word: records `id` at the end of the word's normalized
    /// path from this node.
    fn learn_word(&mut self, word: &str, id: usize)
        ensures
            final(self).view_spec() == trie_insert(old(self).view_spec(), norm_of(word@), id),
    {
        let path: Vec<char> = normalize(word);
        proof {
            assert(path@.skip(0) =~= path@);
        }
        self.insert_path(&path, 0, id);
    }

    /// The child along the edge labelled `c`, if any.
    fn get_child(&self, c: char) -> (r: Option<&WordListNode>)
        requires
            trie_wf(self.view_spec()),
        ensures
            match r {
                Some(n) => child_of(self.view_spec(), c) == Some(n.view_spec()) && trie_wf(
                    n.view_spec(),
                ),
                None => child_of(self.view_spec(), c) is None,
            },
    {
        match self.find_child_index(c) {
            Some(j) => {
                proof {
                    Self::lemma_view_children(self.children@);
                    assert(self.view_spec().children[j as int] == (
                        self.children@[j as int].0,
                        self.children@[j as int].1.view_spec(),
                    ));
                }
                Some(&self.children[j].1)
            },
            None => None,
        }
    }

    /// Collects the identifiers of the terms from this node down to the
    /// given node depth (`None`: unbounded). The result may repeat an
    /// identifier that is reachable along several paths.
    fn collect_terms(&self, depth: Option<usize>) -> (r: Vec<usize>)
        requires
            trie_wf(self.view_spec()),
        ensures
            forall|id: usize| #[trigger] r@.contains(id) <==> reach_terms(
                self.view_spec(),
                depth,
            ).contains(id),
        decreases self,
    {
        let ghost t = self.view_spec();
        let mut r: Vec<usize> = Vec::new();
        let mut k: usize = 0;
        proof {
            assert(r@ =~= self.terms@.take(0));
        }
        while k < self.terms.len()
            invariant
                t == self.view_spec(),
                k <= self.terms@.len(),
                r@ == self.terms@.take(k as int),
            decreases self.terms@.len() - k,
        {
            let v: usize = self.terms[k];
            r.push(v);
            proof {
                assert(self.terms@.take(k + 1) =~= self.terms@.take(k as int).push(
                    self.terms@[k as int],
                ));
            }
            k += 1;
        }
        proof {
            assert(self.terms@.take(self.terms@.len() as int) =~= self.terms@);
            assert(r@ == t.terms);
        }
        let go: bool = match depth {
            Some(d) => d > 0,
            None => true,
        };
        if go {
            let sub: Option<usize> = match depth {
                Some(d) => Some(d - 1),
                None => None,
            };
            let mut j: usize = 0;
            proof {
                assert forall|id: usize| #[trigger] r@.contains(id) <==> (t.terms.contains(id)
                    || (match depth {
                    Some(d) => kids_within_upto(t, (d - 1) as nat, 0),
                    None => kids_all_upto(t, 0),
                }).contains(id)) by {}
            }
            while j < self.children.len()
                invariant
                    t == self.view_spec(),
                    trie_wf(t),
                    j <= self.children@.len(),
                    match depth {
                        Some(d) => d > 0 && sub == Some((d - 1) as usize),
                        None => sub is None,
                    },
                    forall|id: usize| #[trigger] r@.contains(id) <==> (t.terms.contains(id) || (
                    match depth {
                        Some(d) => kids_within_upto(t, (d - 1) as nat, j as int),
                        None => kids_all_upto(t, j as int),
                    }).contains(id)),
                decreases self.children@.len() - j,
            {
                proof {
                    Self::lemma_view_children(self.children@);
                    assert(t.children[j as int].1 == self.children@[j as int].1.view_spec());
                    assert(trie_wf(t.children[j as int].1));
                }
                let ghost r0 = r@;
                let mut part: Vec<usize> = self.children[j].1.collect_terms(sub);
                let ghost ps = part@;
                r.append(&mut part);
                proof {
                    seq_concat_contains(r0, ps);
                    let ghost ch = t.children[j as int].1;
                    assert(ch == self.children@[j as int].1.view_spec());
                    assert forall|id: usize| #[trigger] r@.contains(id) <==> (t.terms.contains(id)
                        || (match depth {
                        Some(d) => kids_within_upto(t, (d - 1) as nat, j + 1),
                        None => kids_all_upto(t, j + 1),
                    }).contains(id)) by {
                        match depth {
                            Some(d) => {
                                if kids_within_upto(t, (d - 1) as nat, j + 1).contains(id) {
                                    let m = choose|m: int|
                                        0 <= m < j + 1 && (#[trigger] within_depth(
                                            t.children[m].1,
                                            (d - 1) as nat,
                                        )).contains(id);
                                    if m < j {
                                        assert(kids_within_upto(t, (d - 1) as nat, j as int)
                                            .contains(id));
                                    } else {
                                        assert(ps.contains(id));
                                    }
                                }
                                if kids_within_upto(t, (d - 1) as nat, j as int).contains(id) {
                                    let m = choose|m: int|
                                        0 <= m < j && (#[trigger] within_depth(
                                            t.children[m].1,
                                            (d - 1) as nat,
                                        )).contains(id);
                                    assert(kids_within_upto(t, (d - 1) as nat, j + 1).contains(
                                        id,
                                    ));
                                }
                                if ps.contains(id) {
                                    assert(within_depth(ch, (d - 1) as nat).contains(id));
                                    assert(kids_within_upto(t, (d - 1) as nat, j + 1).contains(
                                        id,
                                    ));
                                }
                            },
                            None => {
                                if kids_all_upto(t, j + 1).contains(id) {
                                    let m = choose|m: int|
                                        0 <= m < j + 1 && (#[trigger] all_terms(
                                            t.children[m].1,
                                        )).contains(id);
                                    if m < j {
                                        assert(kids_all_upto(t, j as int).contains(id));
                                    } else {
                                        assert(ps.contains(id));
                                    }
                                }
                                if kids_all_upto(t, j as int).contains(id) {
                                    let m = choose|m: int|
                                        0 <= m < j && (#[trigger] all_terms(
                                            t.children[m].1,
                                        )).contains(id);
                                    assert(kids_all_upto(t, j + 1).contains(id));
                                }
                                if ps.contains(id) {
                                    assert(all_terms(ch).contains(id));
                                    assert(kids_all_upto(t, j + 1).contains(id));
                                }
                            },
                        }
                    }
                }
                j += 1;
            }
        }
        proof {
            Self::lemma_view_children(self.children@);
            match depth {
                Some(d) => {
                    lemma_within_depth_unfold(t, d as nat);
                },
                None => {
                    lemma_all_terms_unfold(t);
                },
            }
        }
        r
    }

    /// Greedy depth-first search, bounded by `fuzz` hops, for the first node
    /// below this one whose incoming edge is labelled `chara`.
    fn hope_for_success(&self, chara: char, fuzz: usize) -> (r: Option<&WordListNode>)
        requires
            trie_wf(self.view_spec()),
        ensures
            match r {
                Some(n) => hope(self.view_spec(), chara, fuzz as nat) == Some(n.view_spec())
                    && trie_wf(n.view_spec()),
                None => hope(self.view_spec(), chara, fuzz as nat) is None,
            },
        decreases fuzz,
    {
        let ghost t = self.view_spec();
        let ghost s = t.children;
        if fuzz == 0 {
            return None;
        }
        proof {
            assert(s.skip(0) =~= s);
        }
        let mut j: usize = 0;
        while j < self.children.len()
            invariant
                t == self.view_spec(),
                trie_wf(t),
                s == t.children,
                fuzz >= 1,
                j <= self.children@.len(),
                hope_children(s, chara, fuzz as nat) == hope_children(
                    s.skip(j as int),
                    chara,
                    fuzz as nat,
                ),
            decreases self.children@.len() - j,
        {
            proof {
                Self::lemma_view_children(self.children@);
                assert(s.skip(j as int)[0] == s[j as int]);
                assert(s.skip(j as int).drop_first() =~= s.skip(j + 1));
            }
            if self.children[j].0 == chara {
                proof {
                    assert(s[j as int].0 == chara);
                }
                return Some(&self.children[j].1);
            }
            match self.children[j].1.hope_for_success(chara, fuzz - 1) {
                Some(found) => {
                    return Some(found);
                },
                None => {},
            }
            j += 1;
        }
        proof {
            Self::lemma_view_children(self.children@);
            assert(s.skip(self.children@.len() as int) =~= Seq::<(char, Trie)>::empty());
        }
        None
    }

    /// Learns a single term, which may consist of multiple words: records
    /// `id` at the normalized path of every word of `term_repr` and at the
    /// compact path of the whole text.
    pub fn learn_term(&mut self, term_repr: &str, id: usize)
        requires
            trie_wf(old(self).view_spec()),
        ensures
            final(self).view_spec() == learn_spec(old(self).view_spec(), term_repr@, id),
            trie_wf(final(self).view_spec()),
    {
        let ghost t0 = self.view_spec();
        let ghost paths = words_of(term_repr@).map_values(|w: Seq<char>| norm_of(w));
        let words: Vec<String> = split_words(term_repr);
        let mut k: usize = 0;
        proof {
            assert(paths.skip(0) =~= paths);
        }
        while k < words.len()
            invariant
                k <= words@.len(),
                words.deep_view() == words_of(term_repr@),
                paths == words_of(term_repr@).map_values(|w: Seq<char>| norm_of(w)),
                insert_all(t0, paths, id) == insert_all(
                    self.view_spec(),
                    paths.skip(k as int),
                    id,
                ),
            decreases words@.len() - k,
        {
            let ghost tk = self.view_spec();
            self.learn_word(words[k].as_str(), id);
            proof {
                assert(words.deep_view()[k as int] == words@[k as int]@);
                assert(paths[k as int] == norm_of(words_of(term_repr@)[k as int]));
                assert(paths.skip(k as int)[0] == paths[k as int]);
                assert(paths.skip(k as int).drop_first() =~= paths.skip(k + 1));
            }
            k += 1;
        }
        proof {
            assert(paths.skip(words@.len() as int) =~= Seq::<Seq<char>>::empty());
        }
        let compact: String = compact_text(term_repr);
        self.learn_word(compact.as_str(), id);
        proof {
            lemma_insert_all_wf(t0, paths, id);
            lemma_insert_wf(insert_all(t0, paths, id), crate::text::compact_of(term_repr@), id);
        }
    }

    /// Performs a query search of the given kind. The query is normalized
    /// like learned text; the returned identifiers are those of the matching
    /// terms, each one once.
    pub fn find_terms(&self, query: &str, kind: SearchKind) -> (r: Vec<usize>)
        requires
            trie_wf(self.view_spec()),
        ensures
            r@.no_duplicates(),
            forall|id: usize| #[trigger] r@.contains(id) <==> search_spec(
                self.view_spec(),
                norm_of(query@),
                kind,
            ).contains(id),
        decreases kind_rank(kind),
    {
        let ghost t = self.view_spec();
        let ghost q = norm_of(query@);
        let nq: Vec<char> = normalize(query);
        if nq.len() == 0 {
            let empty_result: Vec<usize> = Vec::new();
            proof {
                assert(forall|id: usize| !empty_result@.contains(id));
            }
            return empty_result;
        }
        let (is_fuzzy, fuzz, wb): (bool, usize, bool) = match &kind {
            SearchKind::Fuzzy(f, pri) => (true, *f, matches!(pri, FuzzPriority::WordBoundary)),
            _ => (false, 0, false),
        };
        proof {
            assert(match kind {
                SearchKind::Strict => !is_fuzzy,
                SearchKind::Prefix(_) => !is_fuzzy,
                SearchKind::Fuzzy(f, pri) => is_fuzzy && fuzz == f && (wb <==> pri
                    is WordBoundary),
            });
        }
        let mut cur: &WordListNode = self;
        let mut captured: bool = false;
        let mut restrict: Vec<usize> = Vec::new();
        let last: usize = nq.len() - 1;
        let mut i: usize = 0;
        proof {
            assert(q.skip(0) =~= q);
        }
        while i < nq.len()
            invariant
                t == self.view_spec(),
                trie_wf(t),
                q == norm_of(query@),
                nq@ == q,
                1 <= q.len(),
                last == q.len() - 1,
                i <= q.len(),
                trie_wf(cur.view_spec()),
                match kind {
                    SearchKind::Strict => !is_fuzzy,
                    SearchKind::Prefix(_) => !is_fuzzy,
                    SearchKind::Fuzzy(f, pri) => is_fuzzy && fuzz == f && (wb <==> pri
                        is WordBoundary),
                },
                !is_fuzzy ==> !captured,
                !is_fuzzy ==> seek(t, q) == seek(cur.view_spec(), q.skip(i as int)),
                is_fuzzy ==> fuzzy_walk(
                    t,
                    (FuzzState { cur: t, restrict: None }),
                    q,
                    0,
                    fuzz as nat,
                    wb,
                ) == fuzzy_walk(
                    t,
                    (FuzzState {
                        cur: cur.view_spec(),
                        restrict: restrict_view(captured, restrict@),
                    }),
                    q,
                    i as int,
                    fuzz as nat,
                    wb,
                ),
            decreases q.len() - i,
        {
            let c: char = nq[i];
            let ghost pre_cur = cur.view_spec();
            let ghost pre_rv = restrict_view(captured, restrict@);
            let ghost st_pre = FuzzState { cur: pre_cur, restrict: pre_rv };
            proof {
                assert(q.skip(i as int)[0] == q[i as int]);
                assert(q.skip(i as int).drop_first() =~= q.skip(i + 1));
            }
            match cur.get_child(c) {
                Some(ch) => {
                    cur = ch;
                    proof {
                        if is_fuzzy {
                            assert(fuzzy_walk(t, st_pre, q, i as int, fuzz as nat, wb)
                                == fuzzy_walk(
                                t,
                                (FuzzState { cur: cur.view_spec(), restrict: pre_rv }),
                                q,
                                i + 1,
                                fuzz as nat,
                                wb,
                            ));
                        }
                    }
                },
                None => {
                    if i != last {
                        if !is_fuzzy {
                            proof {
                                assert(q.skip(i as int).len() >= 2);
                                assert(seek(pre_cur, q.skip(i as int)) is None);
                            }
                            let empty_result: Vec<usize> = Vec::new();
                            proof {
                                assert(forall|id: usize| !empty_result@.contains(id));
                            }
                            return empty_result;
                        }
                        if !captured {
                            restrict = cur.collect_terms(None);
                            captured = true;
                            proof {
                                assert(restrict@.to_set() =~= all_terms(pre_cur));
                            }
                        }
                        let ghost rs = match st_pre.restrict {
                            None => all_terms(st_pre.cur),
                            Some(r) => r,
                        };
                        proof {
                            assert(restrict@.to_set() == rs);
                        }
                        if wb {
                            match self.hope_for_success(c, 1) {
                                Some(alt) => {
                                    let cands: Vec<usize> = alt.collect_terms(None);
                                    let ghost altv = alt.view_spec();
                                    proof {
                                        assert(cands@.to_set() =~= all_terms(altv));
                                    }
                                    if intersects(&cands, &restrict) {
                                        proof {
                                            let x = choose|x: usize|
                                                cands@.contains(x) && restrict@.contains(x);
                                            assert(all_terms(altv).intersect(rs).contains(x));
                                        }
                                        cur = alt;
                                    } else {
                                        proof {
                                            assert(all_terms(altv).intersect(rs)
                                                =~= Set::<usize>::empty()) by {
                                                assert forall|x: usize|
                                                    !all_terms(altv).intersect(rs).contains(
                                                        x,
                                                    ) by {
                                                    if all_terms(altv).contains(x)
                                                        && rs.contains(x) {
                                                        assert(cands@.contains(x)
                                                            && restrict@.contains(x));
                                                    }
                                                }
                                            }
                                        }
                                    }
                                },
                                None => {},
                            }
                        } else {
                            match cur.hope_for_success(c, fuzz) {
                                Some(alt) => {
                                    cur = alt;
                                },
                                None => {
                                    match self.hope_for_success(c, 1) {
                                        Some(alt) => {
                                            cur = alt;
                                        },
                                        None => {},
                                    }
                                },
                            }
                        }
                        proof {
                            assert(restrict_view(captured, restrict@) == Some(rs));
                            assert(fuzzy_walk(t, st_pre, q, i as int, fuzz as nat, wb)
                                == fuzzy_walk(
                                t,
                                (FuzzState { cur: cur.view_spec(), restrict: Some(rs) }),
                                q,
                                i + 1,
                                fuzz as nat,
                                wb,
                            ));
                        }
                    } else {
                        proof {
                            if is_fuzzy {
                                assert(fuzzy_walk(t, st_pre, q, i as int, fuzz as nat, wb)
                                    == fuzzy_walk(t, st_pre, q, i + 1, fuzz as nat, wb));
                            }
                        }
                    }
                },
            }
            i += 1;
        }
        proof {
            assert(q.skip(q.len() as int) =~= Seq::<char>::empty());
        }
        let collected: Vec<usize> = match &kind {
            SearchKind::Fuzzy(_, _) => cur.collect_terms(None),
            SearchKind::Prefix(d) => cur.collect_terms(Some(*d)),
            SearchKind::Strict => cur.collect_terms(Some(0)),
        };
        let ghost cseq = collected@;
        let deduped: Vec<usize> = unique_ids(collected);
        proof {
            lemma_dedup_of(cseq);
        }
        let mut result: Vec<usize>;
        if captured {
            result = Vec::new();
            let mut k: usize = 0;
            proof {
                assert(deduped@.take(0) =~= Seq::<usize>::empty());
            }
            while k < deduped.len()
                invariant
                    k <= deduped@.len(),
                    deduped@.no_duplicates(),
                    result@.no_duplicates(),
                    forall|id: usize| #[trigger] result@.contains(id) <==> (deduped@.take(
                        k as int,
                    ).contains(id) && restrict@.contains(id)),
                decreases deduped@.len() - k,
            {
                let x: usize = deduped[k];
                proof {
                    assert(deduped@.take(k + 1) =~= deduped@.take(k as int).push(x));
                    lemma_push_contains(deduped@.take(k as int), x);
                }
                if contains_id(&restrict, x) {
                    proof {
                        if result@.contains(x) {
                            let m = choose|m: int|
                                0 <= m < k && deduped@.take(k as int)[m] == x;
                            assert(deduped@[m] == deduped@[k as int]);
                        }
                    }
                    let ghost r0 = result@;
                    result.push(x);
                    proof {
                        lemma_push_contains(r0, x);
                        lemma_push_no_dup(r0, x);
                    }
                }
                k += 1;
            }
            proof {
                assert(deduped@.take(deduped@.len() as int) =~= deduped@);
            }
        } else {
            result = deduped;
        }
        proof {
            if is_fuzzy {
                let st_fin = fuzzy_walk(
                    t,
                    (FuzzState { cur: t, restrict: None }),
                    q,
                    0,
                    fuzz as nat,
                    wb,
                );
                assert(st_fin == FuzzState {
                    cur: cur.view_spec(),
                    restrict: restrict_view(captured, restrict@),
                });
                assert forall|id: usize| #[trigger] result@.contains(id) <==> fuzzy_once(
                    t,
                    q,
                    fuzz as nat,
                    wb,
                ).contains(id) by {
                    assert(cseq.contains(id) <==> all_terms(cur.view_spec()).contains(id));
                    assert(deduped@.contains(id) <==> cseq.contains(id));
                    if captured {
                        assert(st_fin.restrict == Some(restrict@.to_set()));
                        assert(fuzzy_once(t, q, fuzz as nat, wb) == all_terms(
                            cur.view_spec(),
                        ).intersect(restrict@.to_set()));
                        assert(result@.contains(id) <==> (deduped@.contains(id)
                            && restrict@.contains(id)));
                        assert(restrict@.to_set().contains(id) == restrict@.contains(id));
                    } else {
                        assert(st_fin.restrict is None);
                        assert(fuzzy_once(t, q, fuzz as nat, wb) == all_terms(cur.view_spec()));
                        assert(result@ == deduped@);
                    }
                }
            } else {
                assert(seek(cur.view_spec(), q.skip(q.len() as int)) == Some(cur.view_spec()));
                assert(seek(t, q) == Some(cur.view_spec()));
                assert(result@ == deduped@);
                match kind {
                    SearchKind::Strict => {
                        assert(search_spec(t, q, kind) == within_depth(cur.view_spec(), 0));
                        assert(forall|id: usize| cseq.contains(id) <==> within_depth(
                            cur.view_spec(),
                            0,
                        ).contains(id));
                    },
                    SearchKind::Prefix(d) => {
                        assert(search_spec(t, q, kind) == within_depth(
                            cur.view_spec(),
                            d as nat,
                        ));
                        assert(forall|id: usize| cseq.contains(id) <==> within_depth(
                            cur.view_spec(),
                            d as nat,
                        ).contains(id));
                    },
                    SearchKind::Fuzzy(_, _) => {
                        assert(false);
                    },
                }
            }
        }
        if result.len() == 0 {
            if let SearchKind::Fuzzy(f2, FuzzPriority::TypoCorrection) = kind {
                proof {
                    assert forall|id: usize| !fuzzy_once(t, q, fuzz as nat, false).contains(
                        id,
                    ) by {
                        if fuzzy_once(t, q, fuzz as nat, false).contains(id) {
                            assert(result@.contains(id));
                        }
                    }
                    assert(fuzzy_once(t, q, fuzz as nat, false) =~= Set::<usize>::empty());
                    assert(fuzzy_search(t, q, fuzz as nat, false) == fuzzy_once(
                        t,
                        q,
                        fuzz as nat,
                        true,
                    ));
                    assert(fuzzy_search(t, q, fuzz as nat, true) == fuzzy_once(
                        t,
                        q,
                        fuzz as nat,
                        true,
                    ));
                }
                return self.find_terms(query, SearchKind::Fuzzy(f2, FuzzPriority::WordBoundary));
            }
        }
        proof {
            if is_fuzzy && !wb {
                if result@.len() > 0 {
                    assert(result@.contains(result@[0]));
                    assert(fuzzy_once(t, q, fuzz as nat, false).contains(result@[0]));
                    assert(!fuzzy_once(t, q, fuzz as nat, false).is_empty());
                    assert(fuzzy_search(t, q, fuzz as nat, false) == fuzzy_once(
                        t,
                        q,
                        fuzz as nat,
                        false,
                    ));
                }
            }
            if is_fuzzy && wb {
                assert(fuzzy_search(t, q, fuzz as nat, true) == fuzzy_once(
                    t,
                    q,
                    fuzz as nat,
                    true,
                ));
            }
            assert(search_spec(t, q, kind) == (match kind {
                SearchKind::Strict => within_depth(cur.view_spec(), 0),
                SearchKind::Prefix(d) => within_depth(cur.view_spec(), d as nat),
                SearchKind::Fuzzy(_, _) => fuzzy_search(t, q, fuzz as nat, wb),
            }));
            assert forall|id: usize| #[trigger] result@.contains(id) <==> search_spec(
                t,
                q,
                kind,
            ).contains(id) by {
                match kind {
                    SearchKind::Strict => {
                        assert(result@.contains(id) <==> deduped@.contains(id));
                        assert(deduped@.contains(id) <==> cseq.contains(id));
                        assert(cseq.contains(id) <==> within_depth(cur.view_spec(), 0).contains(
                            id,
                        ));
                    },
                    SearchKind::Prefix(d) => {
                        assert(result@.contains(id) <==> deduped@.contains(id));
                        assert(deduped@.contains(id) <==> cseq.contains(id));
                        assert(cseq.contains(id) <==> within_depth(
                            cur.view_spec(),
                            d as nat,
                        ).contains(id));
                    },
                    SearchKind::Fuzzy(_, _) => {
                        assert(result@.contains(id) <==> fuzzy_once(
                            t,
                            q,
                            fuzz as nat,
                            wb,
                        ).contains(id));
                        assert(fuzzy_search(t, q, fuzz as nat, wb) == fuzzy_once(
                            t,
                            q,
                            fuzz as nat,
                            wb,
                        ));
                    },
                }
            }
        }
        result
    }
}

/// Whether the two vectors share an element.
fn intersects(a: &Vec<usize>, b: &Vec<usize>) -> (r: bool)
    ensures
        r == exists|x: usize| a@.contains(x) && b@.contains(x),
{
    let mut k: usize = 0;
    while k < a.len()
        invariant
            k <= a@.len(),
            forall|m: int| 0 <= m < k ==> !b@.contains(#[trigger] a@[m]),
        decreases a@.len() - k,
    {
        let x: usize = a[k];
        if contains_id(b, x) {
            proof {
                assert(a@[k as int] == x);
                assert(a@.contains(x) && b@.contains(x));
            }
            return true;
        }
        k += 1;
    }
    proof {
        if exists|x: usize| a@.contains(x) && b@.contains(x) {
            let x = choose|x: usize| a@.contains(x) && b@.contains(x);
            let m = choose|m: int| 0 <= m < a@.len() && a@[m] == x;
            assert(!b@.contains(a@[m]));
        }
    }
    false
}

/// Membership in a concatenation is membership in either part.
proof fn seq_concat_contains(a: Seq<usize>, b: Seq<usize>)
    ensures
        forall|x: usize| #[trigger] (a + b).contains(x) <==> (a.contains(x) || b.contains(x)),
{
    assert forall|x: usize| #[trigger] (a + b).contains(x) implies (a.contains(x) || b.contains(
        x,
    )) by {
        let k = choose|k: int| 0 <= k < (a + b).len() && (a + b)[k] == x;
        if k < a.len() {
            assert(a[k] == x);
        } else {
            assert(b[k - a.len()] == x);
        }
    }
    assert forall|x: usize| (a.contains(x) || b.contains(x)) implies #[trigger] (a + b).contains(
        x,
    ) by {
        if a.contains(x) {
            let k = choose|k: int| 0 <= k < a.len() && a[k] == x;
            assert((a + b)[k] == x);
        } else {
            let k = choose|k: int| 0 <= k < b.len() && b[k] == x;
            assert((a + b)[k + a.len()] == x);
        }
    }
}

/// Whether `v` holds the identifier `id`.
fn contains_id(v: &Vec<usize>, id: usize) -> (r: bool)
    ensures
        r == v@.contains(id),
{
    let mut k: usize = 0;
    while k < v.len()
        invariant
            k <= v@.len(),
            forall|m: int| 0 <= m < k ==> v@[m] != id,
        decreases v@.len() - k,
    {
        if v[k] == id {
            proof {
                assert(v@[k as int] == id);
            }
            return true;
        }
        k += 1;
    }
    false
}

} // verus!
