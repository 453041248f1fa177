//! Duplicate-free storage of owned token strings, the set half of the
//! store's keyed storage. Lookups take a borrowed string slice; stored
//! keys stay owned.
use vstd::prelude::*;

verus! {

broadcast use vstd::set::group_set_axioms, vstd::seq::group_seq_axioms;

/// Relies on `<str as PartialEq>::eq`: two string slices are equal
/// exactly when their character sequences are.
pub assume_specification[ <str as PartialEq>::eq ](a: &str, b: &str) -> (r: bool)
    ensures
        r == (a@ == b@),
;

/// A set of token strings, kept without duplicates.
pub struct StrSet {
    elems: Vec<String>,
}

impl StrSet {
    /// The stored strings, in storage order.
    pub closed spec fn strs(&self) -> Seq<Seq<char>> {
        Seq::new(self.elems@.len(), |i: int| self.elems@[i]@)
    }

    /// The mathematical set of stored strings.
    pub open spec fn set(&self) -> Set<Seq<char>> {
        self.strs().to_set()
    }

    /// No string is stored twice.
    pub open spec fn wf(&self) -> bool {
        self.strs().no_duplicates()
    }

    pub fn new() -> (r: StrSet)
        ensures
            r.wf(),
            r.set() == Set::<Seq<char>>::empty(),
            r.strs() == Seq::<Seq<char>>::empty(),
    {
        let r = StrSet { elems: Vec::new() };
        proof {
            assert(r.strs() =~= Seq::<Seq<char>>::empty());
            assert(r.set() =~= Set::<Seq<char>>::empty());
        }
        r
    }

    pub fn contains(&self, t: &str) -> (r: bool)
        ensures
            r == self.set().contains(t@),
    {
        let n = self.elems.len();
        let mut i: usize = 0;
        while i < n
            invariant
                n == self.elems.len(),
                0 <= i <= n,
                forall|j: int| 0 <= j < i ==> self.strs()[j] != t@,
            decreases n - i,
        {
            if self.elems[i].as_str().eq(t) {
                proof {
                    assert(self.strs()[i as int] == t@);
                    assert(self.strs().contains(t@));
                }
                return true;
            }
            i += 1;
        }
        proof {
            assert forall|j: int| 0 <= j < self.strs().len() implies self.strs()[j] != t@ by {}
            assert(!self.strs().contains(t@));
        }
        false
    }

    /// Inserts the string when it is absent; reports whether it was added.
    pub fn insert(&mut self, t: &str) -> (added: bool)
        requires
            old(self).wf(),
        ensures
            final(self).wf(),
            added == !old(self).set().contains(t@),
            final(self).set() == old(self).set().insert(t@),
            final(self).strs().len() == old(self).strs().len() + (if added {
                1int
            } else {
                0int
            }),
    {
        if self.contains(t) {
            proof {
                assert(self.set() =~= old(self).set().insert(t@));
            }
            false
        } else {
            self.elems.push(t.to_string());
            proof {
                assert(self.strs() =~= old(self).strs().push(t@));
                assert(self.strs().no_duplicates()) by {
                    let pre = old(self).strs();
                    assert forall|a: int, b: int|
                        0 <= a < self.strs().len() && 0 <= b < self.strs().len() && a
                            != b implies self.strs()[a] != self.strs()[b] by {
                        if a < pre.len() && b < pre.len() {
                            assert(self.strs()[a] == pre[a] && self.strs()[b] == pre[b]);
                        } else if a < pre.len() {
                            assert(self.strs()[b] == t@ && self.strs()[a] == pre[a]);
                            assert(!pre.contains(t@));
                        } else {
                            assert(self.strs()[a] == t@ && self.strs()[b] == pre[b]);
                            assert(!pre.contains(t@));
                        }
                    }
                }
                assert forall|x: Seq<char>|
                    self.set().contains(x) <==> old(self).set().insert(t@).contains(x) by {
                    if self.strs().contains(x) {
                        let j = choose|j: int| 0 <= j < self.strs().len() && self.strs()[j] == x;
                        if j < old(self).strs().len() {
                            assert(old(self).strs().contains(x));
                        }
                    }
                    if old(self).strs().contains(x) {
                        let j = choose|j: int|
                            0 <= j < old(self).strs().len() && old(self).strs()[j] == x;
                        assert(self.strs()[j] == x);
                    }
                    if x == t@ {
                        assert(self.strs()[self.strs().len() - 1] == t@);
                    }
                }
                assert(self.set() =~= old(self).set().insert(t@));
            }
            true
        }
    }

    /// Removes the string when present; reports whether it was there.
    pub fn remove(&mut self, t: &str) -> (was_there: bool)
        requires
            old(self).wf(),
        ensures
            final(self).wf(),
            was_there == old(self).set().contains(t@),
            final(self).set() == old(self).set().remove(t@),
            final(self).strs().len() == old(self).strs().len() - (if was_there {
                1int
            } else {
                0int
            }),
    {
        let n = self.elems.len();
        let mut i: usize = 0;
        while i < n
            invariant
                old(self).wf(),
                n == self.elems.len(),
                0 <= i <= n,
                *self == *old(self),
                forall|j: int| 0 <= j < i ==> self.strs()[j] != t@,
            decreases n - i,
        {
            if self.elems[i].as_str().eq(t) {
                proof {
                    assert(old(self).strs()[i as int] == t@);
                    assert(old(self).strs().contains(t@));
                }
                self.elems.remove(i);
                proof {
                    let ghost pre = old(self).strs();
                    let ghost ii = i as int;
                    assert(pre[ii] == t@);
                    assert(pre.no_duplicates());
                    old(self).elems@.remove_ensures(ii);
                    assert(self.strs().len() == pre.len() - 1);
                    assert forall|k: int| 0 <= k < ii implies #[trigger] self.strs()[k]
                        == pre[k] by {
                        assert(self.elems@[k] == old(self).elems@[k]);
                    }
                    assert forall|k: int| ii <= k < self.strs().len() implies #[trigger] self.strs(
                    )[k] == pre[k + 1] by {
                        assert(self.elems@[k] == old(self).elems@[k + 1]);
                    }
                    assert forall|x: Seq<char>|
                        self.set().contains(x) <==> old(self).set().remove(t@).contains(x) by {
                        if self.strs().contains(x) {
                            let j = choose|j: int|
                                0 <= j < self.strs().len() && self.strs()[j] == x;
                            if j < ii {
                                assert(pre[j] == x);
                                assert(pre.contains(x));
                                if x == t@ {
                                    assert(j != ii && pre[j] != pre[ii]);
                                    assert(false);
                                }
                            } else {
                                assert(pre[j + 1] == x);
                                assert(pre.contains(x));
                                if x == t@ {
                                    assert(j + 1 != ii && pre[j + 1] != pre[ii]);
                                    assert(false);
                                }
                            }
                        }
                        if pre.contains(x) && x != t@ {
                            let j = choose|j: int| 0 <= j < pre.len() && pre[j] == x;
                            if j < ii {
                                assert(self.strs()[j] == x);
                                assert(self.strs().contains(x));
                            } else if j > ii {
                                assert(self.strs()[j - 1] == x);
                                assert(self.strs().contains(x));
                            }
                        }
                    }
                    assert(self.set() =~= old(self).set().remove(t@));
                    assert(self.strs().no_duplicates()) by {
                        assert forall|a: int, b: int|
                            0 <= a < self.strs().len() && 0 <= b < self.strs().len() && a
                                != b implies self.strs()[a] != self.strs()[b] by {
                            let pa = if a < ii {
                                a
                            } else {
                                a + 1
                            };
                            let pb = if b < ii {
                                b
                            } else {
                                b + 1
                            };
                            assert(self.strs()[a] == pre[pa] && self.strs()[b] == pre[pb]);
                            assert(pa != pb && pre[pa] != pre[pb]);
                        }
                    }
                }
                return true;
            }
            i += 1;
        }
        proof {
            assert forall|j: int| 0 <= j < old(self).strs().len() implies old(self).strs()[j]
                != t@ by {}
            assert(!old(self).strs().contains(t@));
            assert(self.set() =~= old(self).set().remove(t@));
        }
        false
    }

    pub fn clear(&mut self)
        ensures
            final(self).wf(),
            final(self).set() == Set::<Seq<char>>::empty(),
            final(self).strs() == Seq::<Seq<char>>::empty(),
    {
        self.elems.clear();
        proof {
            assert(self.strs() =~= Seq::<Seq<char>>::empty());
            assert(self.set() =~= Set::<Seq<char>>::empty());
        }
    }

    /// The number of stored strings.
    pub fn len(&self) -> (r: usize)
        requires
            self.wf(),
        ensures
            r == self.set().len(),
    {
        proof {
            self.strs().unique_seq_to_set();
        }
        self.elems.len()
    }

    /// The number of stored strings, as a position count.
    pub fn seq_len(&self) -> (r: usize)
        ensures
            r == self.strs().len(),
    {
        self.elems.len()
    }

    /// The stored string at one storage position.
    pub fn at(&self, i: usize) -> (r: &String)
        requires
            i < self.strs().len(),
        ensures
            r@ == self.strs()[i as int],
    {
        &self.elems[i]
    }

    /// A fresh vector holding every stored string exactly once.
    pub fn to_vec(&self) -> (r: Vec<String>)
        ensures
            r@.len() == self.strs().len(),
            forall|i: int| 0 <= i < r@.len() ==> r@[i]@ == self.strs()[i],
    {
        let n = self.elems.len();
        let mut out: Vec<String> = Vec::new();
        let mut i: usize = 0;
        while i < n
            invariant
                n == self.elems.len(),
                0 <= i <= n,
                out@.len() == i,
                forall|j: int| 0 <= j < i ==> out@[j]@ == self.strs()[j],
            decreases n - i,
        {
            out.push(self.elems[i].clone());
            i += 1;
        }
        out
    }

    /// The set size equals the number of storage positions.
    pub proof fn lemma_card(&self)
        requires
            self.wf(),
        ensures
            self.set().len() == self.strs().len(),
            self.set().finite(),
    {
        self.strs().unique_seq_to_set();
        broadcast use vstd::seq_lib::seq_to_set_is_finite;

    }
}

} // verus!
