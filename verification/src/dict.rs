//! The dictionary of string terms: an interning table of learned values
//! around the trie root. Trie nodes hold indices into the table, so equal
//! values share one identifier and results never repeat a term.
use vstd::prelude::*;
use crate::dedup::{lemma_push_contains, lemma_push_no_dup};
use crate::model::{
    all_terms, empty_trie, index_of_child, learn_spec, lemma_learn_all_terms, terms_at, trie_wf,
    Trie,
};
use crate::text::norm_of;
use crate::trie::{search_spec, SearchKind, WordListNode};

verus! {

/// Index of the value equal to `s` among the learned values (meaningful when
/// one is there; unique when the values are pairwise distinct).
pub open spec fn value_id(vs: Seq<Seq<char>>, s: Seq<char>) -> int {
    choose|i: int| 0 <= i < vs.len() && vs[i] == s
}

/// The identifier under which `learn` records a value: the identifier of the
/// equal value already learned, or the next fresh one.
pub open spec fn learn_id(vs: Seq<Seq<char>>, s: Seq<char>) -> usize {
    if vs.contains(s) {
        value_id(vs, s) as usize
    } else {
        vs.len() as usize
    }
}

/// A dictionary of string terms.
pub struct WordDict {
    root: WordListNode,
    values: Vec<String>,
}

impl WordDict {
    /// The abstract trie of the dictionary.
    pub closed spec fn trie(self) -> Trie {
        self.root.view_spec()
    }

    /// The learned term values in learning order, each exactly as learned.
    pub closed spec fn values_view(self) -> Seq<Seq<char>> {
        self.values.deep_view()
    }

    /// Well-formedness: the trie is well-formed, every identifier stored in
    /// it names a learned value, and no value is learned twice.
    pub closed spec fn wf(self) -> bool {
        &&& trie_wf(self.trie())
        &&& (forall|id: usize|
            all_terms(self.trie()).contains(id) ==> id < self.values_view().len())
        &&& (forall|i: int, j: int|
            0 <= i < j < self.values_view().len() ==> self.values_view()[i]
                != self.values_view()[j])
    }

    /// Creates an empty dictionary.
    pub fn new() -> (d: Self)
        ensures
            d.wf(),
            d.trie() == empty_trie(),
            d.values_view() == Seq::<Seq<char>>::empty(),
    {
        let d = WordDict { root: WordListNode::new(), values: Vec::new() };
        proof {
            assert(d.values_view() =~= Seq::<Seq<char>>::empty());
            assert forall|id: usize| !all_terms(empty_trie()).contains(id) by {
                if all_terms(empty_trie()).contains(id) {
                    let p = choose|p: Seq<char>| #[trigger] terms_at(empty_trie(), p).contains(
                        id,
                    );
                    if p.len() == 0 {
                        assert(forall|x: usize| !Seq::<usize>::empty().contains(x));
                    } else {
                        assert(index_of_child(empty_trie().children, p[0]) == -1);
                    }
                }
            }
        }
        d
    }

    /// Learns a term: the value is interned (a value equal to one already
    /// learned keeps that value's identifier) and indexed under every one of
    /// its words and under its compact form. The value itself is kept exactly
    /// as handed in.
    pub fn learn(&mut self, term: String)
        requires
            old(self).wf(),
        ensures
            final(self).wf(),
            final(self).values_view() == (if old(self).values_view().contains(term@) {
                old(self).values_view()
            } else {
                old(self).values_view().push(term@)
            }),
            final(self).trie() == learn_spec(
                old(self).trie(),
                term@,
                learn_id(old(self).values_view(), term@),
            ),
    {
        let ghost vs = self.values_view();
        let ghost t0 = self.trie();
        let n: usize = self.values.len();
        proof {
            assert(vs.len() == n);
        }
        let mut idx: usize = 0;
        let mut found: bool = false;
        let mut k: usize = 0;
        while k < n
            invariant
                n == self.values@.len(),
                k <= n,
                vs == self.values.deep_view(),
                found ==> (idx < n && vs[idx as int] == term@),
                !found ==> forall|m: int| 0 <= m < k ==> vs[m] != term@,
            decreases n - k,
        {
            if !found {
                if self.values[k] == term {
                    proof {
                        assert(vs[k as int] == self.values@[k as int]@);
                    }
                    found = true;
                    idx = k;
                }
            }
            k += 1;
        }
        proof {
            if found {
                assert(vs.contains(term@));
            } else {
                if vs.contains(term@) {
                    let m = choose|m: int| 0 <= m < vs.len() && vs[m] == term@;
                    assert(vs[m] != term@);
                }
            }
        }
        let id: usize;
        if found {
            id = idx;
            proof {
                let i = value_id(vs, term@);
                assert(0 <= i < vs.len() && vs[i] == term@);
                if i < idx as int {
                    assert(vs[i] != vs[idx as int]);
                } else if (idx as int) < i {
                    assert(vs[idx as int] != vs[i]);
                }
                assert(learn_id(vs, term@) == id);
            }
        } else {
            id = self.values.len();
            self.values.push(term);
            proof {
                assert(self.values.deep_view() =~= vs.push(self.values@[id as int]@));
                assert(learn_id(vs, self.values@[id as int]@) == id);
            }
        }
        let ghost vs2 = self.values.deep_view();
        proof {
            assert(id < self.values@.len());
            assert(vs2[id as int] == self.values@[id as int]@);
        }
        self.root.learn_term(self.values[id].as_str(), id);
        proof {
            assert(self.values@[id as int]@ == term@);
            lemma_learn_all_terms(t0, term@, id);
            assert forall|x: usize| all_terms(self.trie()).contains(x) implies x
                < self.values_view().len() by {
                assert(all_terms(t0).contains(x) || x == id);
            }
            assert forall|i: int, j: int|
                0 <= i < j < self.values_view().len() implies self.values_view()[i]
                != self.values_view()[j] by {
                if j == vs.len() && !vs.contains(term@) {
                    if self.values_view()[i] == term@ {
                        assert(vs[i] == term@);
                    }
                }
            }
        }
    }

    /// Performs a query search of the given kind and returns the learned
    /// values of the matching terms, each exactly as learned, each once.
    pub fn find_terms(&self, query: &str, kind: SearchKind) -> (r: Vec<String>)
        requires
            self.wf(),
        ensures
            r.deep_view().no_duplicates(),
            forall|s: Seq<char>| #[trigger] r.deep_view().contains(s) <==> (exists|id: usize|
                #[trigger] search_spec(self.trie(), norm_of(query@), kind).contains(id) && id
                    < self.values_view().len() && self.values_view()[id as int] == s),
    {
        let ghost gkind = kind;
        let ids: Vec<usize> = self.root.find_terms(query, kind);
        let ghost sset = search_spec(self.trie(), norm_of(query@), gkind);
        let ghost vsv = self.values_view();
        let mut r: Vec<String> = Vec::new();
        let mut k: usize = 0;
        proof {
            assert(r.deep_view() =~= Seq::<Seq<char>>::empty());
            assert(ids@.take(0) =~= Seq::<usize>::empty());
            crate::laws::lemma_search_finds_learned(self.trie(), norm_of(query@), gkind);
            assert forall|id: usize| #[trigger] ids@.contains(id) implies id < vsv.len() by {
                assert(all_terms(self.trie()).contains(id));
            }
        }
        while k < ids.len()
            invariant
                k <= ids@.len(),
                vsv == self.values_view(),
                vsv.len() == self.values@.len(),
                ids@.no_duplicates(),
                forall|i: int, j: int| 0 <= i < j < vsv.len() ==> vsv[i] != vsv[j],
                forall|id: usize| #[trigger] ids@.contains(id) <==> sset.contains(id),
                forall|id: usize| #[trigger] ids@.contains(id) ==> id < vsv.len(),
                r.deep_view().no_duplicates(),
                forall|s: Seq<char>| #[trigger] r.deep_view().contains(s) <==> (exists|id: usize|
                    #[trigger] ids@.take(k as int).contains(id) && id < vsv.len()
                        && vsv[id as int] == s),
            decreases ids@.len() - k,
        {
            let id: usize = ids[k];
            proof {
                assert(ids@.take(k + 1) =~= ids@.take(k as int).push(id));
                lemma_push_contains(ids@.take(k as int), id);
                assert(ids@.contains(ids@[k as int]));
                assert(id < vsv.len());
            }
            {
                let ghost r0 = r.deep_view();
                let v: String = self.values[id].clone();
                proof {
                    assert(v@ == vsv[id as int]);
                    if r0.contains(v@) {
                        let id2 = choose|id2: usize|
                            #[trigger] ids@.take(k as int).contains(id2) && id2 < vsv.len()
                                && vsv[id2 as int] == v@;
                        if id2 != id {
                            assert(vsv[id2 as int] != vsv[id as int]);
                        } else {
                            let m = choose|m: int|
                                0 <= m < k && ids@.take(k as int)[m] == id2;
                            assert(ids@[m] == ids@[k as int]);
                        }
                    }
                }
                r.push(v);
                proof {
                    assert(r.deep_view() =~= r0.push(vsv[id as int]));
                    lemma_push_contains(r0, vsv[id as int]);
                    lemma_push_no_dup(r0, vsv[id as int]);
                    assert forall|s: Seq<char>| #[trigger] r.deep_view().contains(s) <==> (
                    exists|id3: usize|
                        #[trigger] ids@.take(k + 1).contains(id3) && id3 < vsv.len()
                            && vsv[id3 as int] == s) by {
                        if r.deep_view().contains(s) {
                            if r0.contains(s) {
                                let id3 = choose|id3: usize|
                                    #[trigger] ids@.take(k as int).contains(id3) && id3
                                        < vsv.len() && vsv[id3 as int] == s;
                                assert(ids@.take(k + 1).contains(id3));
                            } else {
                                assert(ids@.take(k + 1).contains(id));
                            }
                        }
                        if exists|id3: usize|
                            #[trigger] ids@.take(k + 1).contains(id3) && id3 < vsv.len()
                                && vsv[id3 as int] == s {
                            let id3 = choose|id3: usize|
                                #[trigger] ids@.take(k + 1).contains(id3) && id3 < vsv.len()
                                    && vsv[id3 as int] == s;
                            if ids@.take(k as int).contains(id3) {
                                assert(r0.contains(s));
                            } else {
                                assert(id3 == id);
                            }
                        }
                    }
                }
            }
            k += 1;
        }
        proof {
            assert(ids@.take(ids@.len() as int) =~= ids@);
            assert forall|s: Seq<char>| #[trigger] r.deep_view().contains(s) <==> (exists|id: usize|
                #[trigger] sset.contains(id) && id < vsv.len() && vsv[id as int] == s) by {
                if r.deep_view().contains(s) {
                    let id3 = choose|id3: usize|
                        #[trigger] ids@.take(ids@.len() as int).contains(id3) && id3 < vsv.len()
                            && vsv[id3 as int] == s;
                    assert(ids@.contains(id3));
                    assert(sset.contains(id3));
                }
                if exists|id: usize|
                    #[trigger] sset.contains(id) && id < vsv.len() && vsv[id as int] == s {
                    let id = choose|id: usize|
                        #[trigger] sset.contains(id) && id < vsv.len() && vsv[id as int] == s;
                    assert(ids@.contains(id));
                    assert(ids@.take(ids@.len() as int).contains(id));
                }
            }
        }
        r
    }
}

} // verus!
