//! Storage of per-token orthographic context flags: a map from owned
//! token strings to an opaque flag value, the map half of the store's
//! keyed storage.
use vstd::prelude::*;

use crate::OrthographicContext;

verus! {

broadcast use vstd::set::group_set_axioms, vstd::seq::group_seq_axioms, vstd::map::group_map_axioms;

/// A map from token strings to their orthographic context flags.
pub struct OrthoMap {
    entries: Vec<(String, OrthographicContext)>,
}

impl OrthoMap {
    /// The stored tokens, in storage order.
    pub closed spec fn keys(&self) -> Seq<Seq<char>> {
        Seq::new(self.entries@.len(), |i: int| self.entries@[i].0@)
    }

    /// The storage position of one stored token.
    pub closed spec fn key_index(&self, k: Seq<char>) -> int {
        choose|i: int| 0 <= i < self.keys().len() && self.keys()[i] == k
    }

    /// The mathematical map of stored tokens to their flags.
    pub closed spec fn view_map(&self) -> Map<Seq<char>, OrthographicContext> {
        Map::new(
            |k: Seq<char>| self.keys().contains(k),
            |k: Seq<char>| self.entries@[self.key_index(k)].1,
        )
    }

    /// No token is stored twice.
    pub closed spec fn wf(&self) -> bool {
        self.keys().no_duplicates()
    }

    /// The stored token positions agree with the map view.
    proof fn lemma_at(&self, i: int)
        requires
            self.wf(),
            0 <= i < self.keys().len(),
        ensures
            self.view_map().dom().contains(self.keys()[i]),
            self.view_map()[self.keys()[i]] == self.entries@[i].1,
    {
        assert(self.keys().contains(self.keys()[i]));
        let j = self.key_index(self.keys()[i]);
        assert(0 <= j < self.keys().len() && self.keys()[j] == self.keys()[i]);
        if j != i {
            assert(self.keys()[j] != self.keys()[i]);
        }
    }

    pub fn new() -> (r: OrthoMap)
        ensures
            r.wf(),
            r.view_map() == Map::<Seq<char>, OrthographicContext>::empty(),
    {
        let r = OrthoMap { entries: Vec::new() };
        proof {
            assert(r.keys() =~= Seq::<Seq<char>>::empty());
            assert(r.view_map() =~= Map::<Seq<char>, OrthographicContext>::empty());
        }
        r
    }

    /// The storage position of a token, when it is stored.
    fn find(&self, tok: &str) -> (r: Option<usize>)
        ensures
            match r {
                Some(i) => i < self.keys().len() && self.keys()[i as int] == tok@,
                None => !self.keys().contains(tok@),
            },
    {
        let n = self.entries.len();
        let mut i: usize = 0;
        while i < n
            invariant
                n == self.entries.len(),
                0 <= i <= n,
                forall|j: int| 0 <= j < i ==> self.keys()[j] != tok@,
            decreases n - i,
        {
            if self.entries[i].0.as_str().eq(tok) {
                return Some(i);
            }
            i += 1;
        }
        assert(!self.keys().contains(tok@));
        None
    }

    pub fn contains_key(&self, tok: &str) -> (r: bool)
        requires
            self.wf(),
        ensures
            r == self.view_map().dom().contains(tok@),
    {
        match self.find(tok) {
            Some(i) => {
                proof {
                    assert(self.keys().contains(tok@));
                }
                true
            },
            None => false,
        }
    }

    pub fn get(&self, tok: &str) -> (r: Option<OrthographicContext>)
        requires
            self.wf(),
        ensures
            r == if self.view_map().dom().contains(tok@) {
                Some(self.view_map()[tok@])
            } else {
                None
            },
    {
        match self.find(tok) {
            Some(i) => {
                proof {
                    self.lemma_at(i as int);
                }
                Some(self.entries[i].1)
            },
            None => None,
        }
    }

    /// Stores a flag for the token only when none is stored yet; reports
    /// whether it was stored.
    pub fn insert_if_absent(&mut self, tok: &str, v: OrthographicContext) -> (added: bool)
        requires
            old(self).wf(),
        ensures
            final(self).wf(),
            added == !old(self).view_map().dom().contains(tok@),
            final(self).view_map() == if added {
                old(self).view_map().insert(tok@, v)
            } else {
                old(self).view_map()
            },
    {
        match self.find(tok) {
            Some(i) => {
                proof {
                    assert(self.keys().contains(tok@));
                }
                false
            },
            None => {
                self.put(tok, v);
                true
            },
        }
    }

    /// Stores a flag for the token, replacing any stored one.
    pub fn put(&mut self, tok: &str, v: OrthographicContext)
        requires
            old(self).wf(),
        ensures
            final(self).wf(),
            final(self).view_map() == old(self).view_map().insert(tok@, v),
    {
        let found = self.find(tok);
        match found {
            Some(i) => {
                self.entries[i].1 = v;
                proof {
                    let ghost pre = *old(self);
                    let ghost ii = i as int;
                    assert(self.keys() =~= pre.keys());
                    assert forall|k: int|
                        0 <= k < self.keys().len() && k != ii implies #[trigger] self.entries@[k]
                        == pre.entries@[k] by {}
                    assert(self.entries@[ii].1 == v);
                    self.lemma_view_eq_insert(&pre, ii, tok@, v);
                }
            },
            None => {
                self.entries.push((tok.to_string(), v));
                proof {
                    let ghost pre = *old(self);
                    let ghost n = pre.keys().len() as int;
                    assert(self.keys() =~= pre.keys().push(tok@));
                    assert(self.wf()) by {
                        assert forall|a: int, b: int|
                            0 <= a < self.keys().len() && 0 <= b < self.keys().len() && a
                                != b implies self.keys()[a] != self.keys()[b] by {
                            if a < n && b < n {
                                assert(self.keys()[a] == pre.keys()[a]);
                                assert(self.keys()[b] == pre.keys()[b]);
                            } else if a < n {
                                assert(self.keys()[a] == pre.keys()[a]);
                                assert(self.keys()[b] == tok@);
                                assert(!pre.keys().contains(tok@));
                            } else {
                                assert(self.keys()[a] == tok@);
                                assert(self.keys()[b] == pre.keys()[b]);
                                assert(!pre.keys().contains(tok@));
                            }
                        }
                    }
                    self.lemma_view_eq_insert(&pre, n, tok@, v);
                }
            },
        }
    }

    /// After changing or adding exactly the entry at one position, the
    /// view is the old view with that binding inserted.
    proof fn lemma_view_eq_insert(&self, pre: &OrthoMap, ii: int, k: Seq<char>, v: OrthographicContext)
        requires
            self.wf(),
            pre.wf(),
            0 <= ii < self.keys().len(),
            self.keys().len() == pre.keys().len() || self.keys().len() == pre.keys().len() + 1,
            forall|j: int|
                0 <= j < self.keys().len() && j != ii ==> #[trigger] self.entries@[j]
                    == pre.entries@[j],
            forall|j: int| 0 <= j < pre.keys().len() ==> self.keys()[j] == pre.keys()[j] || j == ii,
            self.keys()[ii] == k,
            self.entries@[ii].1 == v,
            self.keys().len() == pre.keys().len() ==> pre.keys()[ii] == k,
            self.keys().len() == pre.keys().len() + 1 ==> ii == pre.keys().len() && !pre.keys(
            ).contains(k),
        ensures
            self.view_map() == pre.view_map().insert(k, v),
    {
        assert forall|x: Seq<char>|
            self.view_map().dom().contains(x) <==> pre.view_map().insert(k, v).dom().contains(
            x,
        ) by {
            if x == k {
                assert(self.keys()[ii] == k);
                assert(self.keys().contains(k));
            } else {
                if self.keys().contains(x) {
                    let j = choose|j: int| 0 <= j < self.keys().len() && self.keys()[j] == x;
                    assert(j != ii);
                    assert(pre.keys()[j] == x);
                    assert(pre.keys().contains(x));
                }
                if pre.keys().contains(x) {
                    let j = choose|j: int| 0 <= j < pre.keys().len() && pre.keys()[j] == x;
                    assert(self.keys()[j] == x || j == ii);
                    if j == ii {
                        assert(pre.keys()[ii] == k);
                        assert(false);
                    }
                    assert(self.keys().contains(x));
                }
            }
        }
        assert forall|x: Seq<char>| self.view_map().dom().contains(x) implies self.view_map()[x]
            == pre.view_map().insert(k, v)[x] by {
            let j = self.key_index(x);
            assert(self.keys().contains(x));
            assert(0 <= j < self.keys().len() && self.keys()[j] == x);
            if x == k {
                if j != ii {
                    assert(self.keys()[j] != self.keys()[ii]);
                    assert(false);
                }
                assert(self.view_map()[x] == v);
            } else {
                assert(j != ii);
                assert(pre.keys()[j] == x);
                let jp = pre.key_index(x);
                assert(pre.keys().contains(x));
                assert(0 <= jp < pre.keys().len() && pre.keys()[jp] == x);
                if jp != j {
                    assert(pre.keys()[jp] != pre.keys()[j]);
                    assert(false);
                }
                assert(self.view_map()[x] == self.entries@[j].1);
                assert(pre.view_map()[x] == pre.entries@[j].1);
                assert(self.entries@[j] == pre.entries@[j]);
            }
        }
        assert(self.view_map() =~= pre.view_map().insert(k, v));
    }

    /// Drops a token's flag; reports whether one was stored.
    pub fn remove(&mut self, tok: &str) -> (was_there: bool)
        requires
            old(self).wf(),
        ensures
            final(self).wf(),
            was_there == old(self).view_map().dom().contains(tok@),
            final(self).view_map() == old(self).view_map().remove(tok@),
    {
        let found = self.find(tok);
        match found {
            None => {
                proof {
                    assert(self.view_map() =~= old(self).view_map().remove(tok@));
                }
                false
            },
            Some(i) => {
                self.entries.remove(i);
                proof {
                    let ghost pre = *old(self);
                    let ghost ii = i as int;
                    assert(pre.keys()[ii] == tok@);
                    assert(pre.keys().contains(tok@));
                    pre.entries@.remove_ensures(ii);
                    assert(self.entries@ == pre.entries@.remove(ii));
                    assert forall|j: int| 0 <= j < ii implies #[trigger] self.entries@[j]
                        == pre.entries@[j] by {}
                    assert forall|j: int|
                        ii <= j < self.entries@.len() implies #[trigger] self.entries@[j]
                        == pre.entries@[j + 1] by {}
                    assert(self.wf()) by {
                        assert forall|a: int, b: int|
                            0 <= a < self.keys().len() && 0 <= b < self.keys().len() && a
                                != b implies self.keys()[a] != self.keys()[b] by {
                            let pa = if a < ii {
                                a
                            } else {
                                a + 1
                            };
                            let pb = if b < ii {
                                b
                            } else {
                                b + 1
                            };
                            assert(self.keys()[a] == pre.keys()[pa]);
                            assert(self.keys()[b] == pre.keys()[pb]);
                            assert(pa != pb && pre.keys()[pa] != pre.keys()[pb]);
                        }
                    }
                    assert forall|x: Seq<char>|
                        self.view_map().dom().contains(x) <==> pre.view_map().remove(
                            tok@,
                        ).dom().contains(x) by {
                        if self.keys().contains(x) {
                            let j = choose|j: int|
                                0 <= j < self.keys().len() && self.keys()[j] == x;
                            let pj = if j < ii {
                                j
                            } else {
                                j + 1
                            };
                            assert(pre.keys()[pj] == x);
                            assert(pre.keys().contains(x));
                            if x == tok@ {
                                assert(pj != ii && pre.keys()[pj] != pre.keys()[ii]);
                                assert(false);
                            }
                        }
                        if pre.keys().contains(x) && x != tok@ {
                            let j = choose|j: int|
                                0 <= j < pre.keys().len() && pre.keys()[j] == x;
                            assert(j != ii);
                            if j < ii {
                                assert(self.keys()[j] == x);
                            } else {
                                assert(self.keys()[j - 1] == x);
                            }
                            assert(self.keys().contains(x));
                        }
                    }
                    assert forall|x: Seq<char>|
                        self.view_map().dom().contains(x) implies self.view_map()[x]
                        == pre.view_map().remove(tok@)[x] by {
                        let j = self.key_index(x);
                        assert(self.keys().contains(x));
                        assert(0 <= j < self.keys().len() && self.keys()[j] == x);
                        let pj = if j < ii {
                            j
                        } else {
                            j + 1
                        };
                        assert(pre.keys()[pj] == x);
                        assert(pre.keys().contains(x));
                        let jp = pre.key_index(x);
                        assert(0 <= jp < pre.keys().len() && pre.keys()[jp] == x);
                        if jp != pj {
                            assert(pre.keys()[jp] != pre.keys()[pj]);
                            assert(false);
                        }
                        assert(self.view_map()[x] == self.entries@[j].1);
                        assert(pre.view_map()[x] == pre.entries@[pj].1);
                        assert(self.entries@[j] == pre.entries@[pj]);
                    }
                    assert(self.view_map() =~= pre.view_map().remove(tok@));
                }
                true
            },
        }
    }

    pub fn clear(&mut self)
        ensures
            final(self).wf(),
            final(self).view_map() == Map::<Seq<char>, OrthographicContext>::empty(),
    {
        self.entries.clear();
        proof {
            assert(self.keys() =~= Seq::<Seq<char>>::empty());
            assert(self.view_map() =~= Map::<Seq<char>, OrthographicContext>::empty());
        }
    }

    /// The number of tokens with a stored flag.
    pub fn len(&self) -> (r: usize)
        requires
            self.wf(),
        ensures
            r == self.view_map().dom().len(),
    {
        proof {
            self.lemma_card();
        }
        self.entries.len()
    }

    /// The domain is finite and as large as the storage.
    pub proof fn lemma_card(&self)
        requires
            self.wf(),
        ensures
            self.view_map().dom().finite(),
            self.view_map().dom().len() == self.keys().len(),
    {
        assert(self.view_map().dom() =~= self.keys().to_set());
        self.keys().unique_seq_to_set();
        broadcast use vstd::seq_lib::seq_to_set_is_finite;

    }

    /// A fresh vector pairing every stored token with its flag, each
    /// token exactly once.
    pub fn to_vec(&self) -> (r: Vec<(String, OrthographicContext)>)
        requires
            self.wf(),
        ensures
            r@.len() == self.view_map().dom().len(),
            forall|i: int|
                0 <= i < r@.len() ==> self.view_map().dom().contains(#[trigger] r@[i].0@)
                    && self.view_map()[r@[i].0@] == r@[i].1,
            forall|i: int, j: int|
                0 <= i < r@.len() && 0 <= j < r@.len() && i != j ==> r@[i].0@ != r@[j].0@,
            forall|k: Seq<char>|
                #[trigger] self.view_map().dom().contains(k) ==> exists|t: int|
                    0 <= t < r@.len() && (#[trigger] r@[t]).0@ == k,
    {
        proof {
            self.lemma_card();
        }
        let n = self.entries.len();
        let mut out: Vec<(String, OrthographicContext)> = Vec::new();
        let mut i: usize = 0;
        while i < n
            invariant
                self.wf(),
                n == self.entries.len(),
                0 <= i <= n,
                out@.len() == i,
                forall|j: int|
                    0 <= j < i ==> (#[trigger] out@[j]).0@ == self.keys()[j] && out@[j].1
                        == self.entries@[j].1,
            decreases n - i,
        {
            let tok = self.entries[i].0.clone();
            let v = self.entries[i].1;
            out.push((tok, v));
            i += 1;
        }
        proof {
            assert forall|j: int|
                0 <= j < out@.len() implies self.view_map().dom().contains(
                #[trigger] out@[j].0@,
            ) && self.view_map()[out@[j].0@] == out@[j].1 by {
                self.lemma_at(j);
            }
            assert forall|k: Seq<char>| #[trigger]
                self.view_map().dom().contains(k) implies exists|t: int|
                0 <= t < out@.len() && (#[trigger] out@[t]).0@ == k by {
                assert(self.keys().contains(k));
                let j = choose|j: int| 0 <= j < self.keys().len() && self.keys()[j] == k;
                assert(out@[j].0@ == k);
            }
        }
        out
    }
}

} // verus!
