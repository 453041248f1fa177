//! Storage of token collocations: a map from a left token to the set of
//! right tokens seen next to it, together with a lazy iterator that
//! flattens the two-level structure into a stream of pairs.
use vstd::prelude::*;

use crate::strset::StrSet;

verus! {

broadcast use vstd::set::group_set_axioms, vstd::seq::group_seq_axioms;

/// Membership of a concatenation is membership of either part.
proof fn seq_concat_contains<A>(a: Seq<A>, b: Seq<A>)
    ensures
        forall|x: A| #[trigger] (a + b).contains(x) <==> a.contains(x) || b.contains(x),
{
    assert forall|x: A| #[trigger] (a + b).contains(x) implies a.contains(x) || b.contains(x) by {
        let i = choose|i: int| 0 <= i < (a + b).len() && (a + b)[i] == x;
        if i < a.len() {
            assert(a[i] == x);
        } else {
            assert(b[i - a.len()] == x);
        }
    }
    assert forall|x: A| a.contains(x) || b.contains(x) implies #[trigger] (a + b).contains(x) by {
        if a.contains(x) {
            let i = choose|i: int| 0 <= i < a.len() && a[i] == x;
            assert((a + b)[i] == x);
        } else {
            let i = choose|i: int| 0 <= i < b.len() && b[i] == x;
            assert((a + b)[a.len() + i] == x);
        }
    }
}

/// A map from left tokens to the set of right tokens recorded next to
/// them. A left token may keep an empty set of collocates after removals.
pub struct ColloMap {
    entries: Vec<(String, StrSet)>,
}

impl ColloMap {
    /// The left tokens, in storage order.
    pub closed spec fn keys(&self) -> Seq<Seq<char>> {
        Seq::new(self.entries@.len(), |i: int| self.entries@[i].0@)
    }

    /// The collocates of the left token at one storage position.
    pub closed spec fn bucket(&self, i: int) -> Seq<Seq<char>> {
        self.entries@[i].1.strs()
    }

    /// Keys are unique, every bucket is duplicate-free, and the total
    /// number of recorded pairs fits the machine.
    pub closed spec fn wf(&self) -> bool {
        &&& self.keys().no_duplicates()
        &&& forall|i: int| 0 <= i < self.keys().len() ==> (#[trigger] self.entries@[i].1).wf()
        &&& self.total() <= usize::MAX
    }

    /// The recorded pairs of the first `n` left tokens, flattened in
    /// storage order.
    pub closed spec fn flat_prefix(&self, n: int) -> Seq<(Seq<char>, Seq<char>)>
        decreases n,
    {
        if n <= 0 {
            Seq::empty()
        } else {
            self.flat_prefix(n - 1) + self.row(n - 1)
        }
    }

    /// The pairs contributed by the left token at one storage position.
    pub closed spec fn row(&self, i: int) -> Seq<(Seq<char>, Seq<char>)> {
        Seq::new(self.bucket(i).len(), |j: int| (self.keys()[i], self.bucket(i)[j]))
    }

    /// Every recorded pair, flattened in storage order.
    pub open spec fn flat(&self) -> Seq<(Seq<char>, Seq<char>)> {
        self.flat_prefix(self.keys().len() as int)
    }

    /// The set of recorded (left, right) pairs.
    pub open spec fn pairs(&self) -> Set<(Seq<char>, Seq<char>)> {
        self.flat().to_set()
    }

    /// The number of recorded pairs, counting each collocate of each
    /// left token.
    pub open spec fn total(&self) -> nat {
        self.flat().len()
    }

    /// A flattened prefix holds exactly the pairs of the first `n` left
    /// tokens.
    proof fn lemma_prefix_contains(&self, n: int)
        requires
            0 <= n <= self.keys().len(),
        ensures
            forall|p: (Seq<char>, Seq<char>)| #[trigger]
                self.flat_prefix(n).contains(p) <==> exists|i: int|
                    0 <= i < n && self.keys()[i] == p.0 && #[trigger] self.bucket(i).contains(p.1),
        decreases n,
    {
        if n > 0 {
            self.lemma_prefix_contains(n - 1);
            seq_concat_contains(self.flat_prefix(n - 1), self.row(n - 1));
            assert forall|p: (Seq<char>, Seq<char>)| #[trigger]
                self.flat_prefix(n).contains(p) implies exists|i: int|
                0 <= i < n && self.keys()[i] == p.0 && #[trigger] self.bucket(i).contains(p.1) by {
                if self.row(n - 1).contains(p) {
                    let j = choose|j: int|
                        0 <= j < self.row(n - 1).len() && #[trigger] self.row(n - 1)[j] == p;
                    assert(self.bucket(n - 1)[j] == p.1);
                    assert(self.bucket(n - 1).contains(p.1));
                }
            }
            assert forall|p: (Seq<char>, Seq<char>)|
                (exists|i: int|
                    0 <= i < n && self.keys()[i] == p.0 && #[trigger] self.bucket(i).contains(
                        p.1,
                    )) implies #[trigger] self.flat_prefix(n).contains(p) by {
                let i = choose|i: int|
                    0 <= i < n && self.keys()[i] == p.0 && #[trigger] self.bucket(i).contains(p.1);
                if i == n - 1 {
                    let j = choose|j: int|
                        0 <= j < self.bucket(i).len() && self.bucket(i)[j] == p.1;
                    assert(self.row(n - 1)[j] == p);
                    assert(self.row(n - 1).contains(p));
                } else {
                    assert(self.flat_prefix(n - 1).contains(p));
                }
            }
        }
    }

    /// Recorded pairs are characterised by key position and bucket
    /// membership.
    pub proof fn lemma_pairs_contains(&self)
        ensures
            forall|p: (Seq<char>, Seq<char>)| #[trigger]
                self.pairs().contains(p) <==> exists|i: int|
                    0 <= i < self.keys().len() && self.keys()[i] == p.0 && #[trigger] self.bucket(
                        i,
                    ).contains(p.1),
    {
        self.lemma_prefix_contains(self.keys().len() as int);
    }

    /// With unique keys and duplicate-free buckets the flattened stream
    /// repeats no pair.
    proof fn lemma_prefix_no_dup(&self, n: int)
        requires
            self.wf(),
            0 <= n <= self.keys().len(),
        ensures
            self.flat_prefix(n).no_duplicates(),
        decreases n,
    {
        if n > 0 {
            self.lemma_prefix_no_dup(n - 1);
            self.lemma_prefix_contains(n - 1);
            let pre = self.flat_prefix(n - 1);
            let r = self.row(n - 1);
            assert(r.no_duplicates()) by {
                assert(self.entries@[n - 1].1.wf());
                assert forall|j: int, k: int|
                    0 <= j < r.len() && 0 <= k < r.len() && j != k implies r[j] != r[k] by {
                    assert(self.bucket(n - 1)[j] != self.bucket(n - 1)[k]);
                }
            }
            assert forall|j: int, k: int|
                0 <= j < self.flat_prefix(n).len() && 0 <= k < self.flat_prefix(n).len() && j
                    != k implies self.flat_prefix(n)[j] != self.flat_prefix(n)[k] by {
                let whole = self.flat_prefix(n);
                if j < pre.len() && k < pre.len() {
                    assert(whole[j] == pre[j] && whole[k] == pre[k]);
                } else if j >= pre.len() && k >= pre.len() {
                    assert(whole[j] == r[j - pre.len()] && whole[k] == r[k - pre.len()]);
                } else {
                    let (a, b) = if j < pre.len() {
                        (j, k)
                    } else {
                        (k, j)
                    };
                    assert(whole[a] == pre[a]);
                    assert(whole[b] == r[b - pre.len()]);
                    assert(pre.contains(pre[a]));
                    let i = choose|i: int|
                        0 <= i < n - 1 && self.keys()[i] == pre[a].0 && #[trigger] self.bucket(
                            i,
                        ).contains(pre[a].1);
                    assert(self.keys()[i] != self.keys()[n - 1]);
                    assert(r[b - pre.len()].0 == self.keys()[n - 1]);
                }
            }
        }
    }

    /// The pair set is finite and as large as the flattened stream.
    pub proof fn lemma_pairs_card(&self)
        requires
            self.wf(),
        ensures
            self.pairs().finite(),
            self.pairs().len() == self.total(),
            self.flat().no_duplicates(),
    {
        self.lemma_prefix_no_dup(self.keys().len() as int);
        self.flat().unique_seq_to_set();
        broadcast use vstd::seq_lib::seq_to_set_is_finite;

    }

    /// Flattened prefixes only grow.
    proof fn lemma_prefix_mono(&self, m: int, n: int)
        requires
            0 <= m <= n,
        ensures
            self.flat_prefix(m).len() <= self.flat_prefix(n).len(),
        decreases n - m,
    {
        if m < n {
            self.lemma_prefix_mono(m, n - 1);
        }
    }

    /// Position of one bucket element inside the flattened stream.
    proof fn lemma_flat_index(&self, i: int, j: int)
        requires
            0 <= i < self.keys().len(),
            0 <= j < self.bucket(i).len(),
        ensures
            self.flat_prefix(i).len() + j < self.total(),
            self.flat()[self.flat_prefix(i).len() + j] == (self.keys()[i], self.bucket(i)[j]),
    {
        self.lemma_flat_index_rec(self.keys().len() as int, i, j);
    }

    proof fn lemma_flat_index_rec(&self, n: int, i: int, j: int)
        requires
            0 <= i < n <= self.keys().len(),
            0 <= j < self.bucket(i).len(),
        ensures
            self.flat_prefix(i).len() + j < self.flat_prefix(n).len(),
            self.flat_prefix(n)[self.flat_prefix(i).len() + j] == (
                self.keys()[i],
                self.bucket(i)[j],
            ),
        decreases n,
    {
        if i == n - 1 {
            assert(self.row(n - 1)[j] == (self.keys()[i], self.bucket(i)[j]));
        } else {
            self.lemma_flat_index_rec(n - 1, i, j);
        }
    }

    /// Two maps whose rows have equal lengths except at one position
    /// have flattened prefixes whose lengths differ the same way.
    proof fn lemma_len_except(a: &ColloMap, b: &ColloMap, n: int, x: int)
        requires
            0 <= n <= a.keys().len(),
            n <= b.keys().len(),
            forall|i: int|
                0 <= i < n && i != x ==> #[trigger] a.bucket(i).len() == b.bucket(i).len(),
        ensures
            0 <= x < n ==> a.flat_prefix(n).len() + b.bucket(x).len() == b.flat_prefix(n).len()
                + a.bucket(x).len(),
            !(0 <= x < n) ==> a.flat_prefix(n).len() == b.flat_prefix(n).len(),
        decreases n,
    {
        if n > 0 {
            Self::lemma_len_except(a, b, n - 1, x);
        }
    }

    pub fn new() -> (r: ColloMap)
        ensures
            r.wf(),
            r.pairs() == Set::<(Seq<char>, Seq<char>)>::empty(),
            r.total() == 0,
            r.keys().len() == 0,
    {
        let r = ColloMap { entries: Vec::new() };
        proof {
            assert(r.keys() =~= Seq::<Seq<char>>::empty());
            assert(r.pairs() =~= Set::<(Seq<char>, Seq<char>)>::empty());
        }
        r
    }

    /// The storage position of a left token, when it has one.
    fn find(&self, l: &str) -> (r: Option<usize>)
        ensures
            match r {
                Some(i) => i < self.keys().len() && self.keys()[i as int] == l@,
                None => !self.keys().contains(l@),
            },
    {
        let n = self.entries.len();
        let mut i: usize = 0;
        while i < n
            invariant
                n == self.entries.len(),
                0 <= i <= n,
                forall|j: int| 0 <= j < i ==> self.keys()[j] != l@,
            decreases n - i,
        {
            if self.entries[i].0.as_str().eq(l) {
                return Some(i);
            }
            i += 1;
        }
        assert(!self.keys().contains(l@));
        None
    }

    pub fn contains_pair(&self, l: &str, r: &str) -> (res: bool)
        requires
            self.wf(),
        ensures
            res == self.pairs().contains((l@, r@)),
    {
        proof {
            self.lemma_pairs_contains();
        }
        match self.find(l) {
            Some(i) => {
                let res = self.entries[i].1.contains(r);
                proof {
                    let ghost ii = i as int;
                    if !res {
                        assert(!self.bucket(ii).to_set().contains(r@));
                        if self.pairs().contains((l@, r@)) {
                            let k = choose|k: int|
                                0 <= k < self.keys().len() && self.keys()[k] == l@
                                    && #[trigger] self.bucket(k).contains(r@);
                            if k != ii {
                                assert(self.keys()[k] != self.keys()[ii]);
                                assert(false);
                            }
                            assert(self.bucket(ii).to_set().contains(r@));
                            assert(false);
                        }
                    } else {
                        let ghost p = (l@, r@);
                        assert(self.bucket(ii).to_set().contains(p.1));
                        assert(self.bucket(ii).contains(p.1));
                        assert(self.keys()[ii] == p.0);
                        assert(self.pairs().contains(p));
                    }
                }
                res
            },
            None => {
                proof {
                    if self.pairs().contains((l@, r@)) {
                        let k = choose|k: int|
                            0 <= k < self.keys().len() && self.keys()[k] == l@
                                && #[trigger] self.bucket(k).contains(r@);
                        assert(self.keys().contains(l@));
                    }
                }
                false
            },
        }
    }

    /// Records one (left, right) pair, creating the left token's bucket
    /// on first use; reports whether the pair is new.
    pub fn insert_pair(&mut self, l: &str, r: &str) -> (added: bool)
        requires
            old(self).wf(),
            old(self).total() < usize::MAX,
        ensures
            final(self).wf(),
            added == !old(self).pairs().contains((l@, r@)),
            final(self).pairs() == old(self).pairs().insert((l@, r@)),
            final(self).total() == old(self).total() + (if added {
                1int
            } else {
                0int
            }),
    {
        proof {
            old(self).lemma_pairs_contains();
        }
        let found = self.find(l);
        match found {
            None => {
                let mut bucket = StrSet::new();
                bucket.insert(r);
                self.entries.push((l.to_string(), bucket));
                proof {
                    let ghost pre = *old(self);
                    let ghost n = pre.keys().len() as int;
                    assert(self.keys() =~= pre.keys().push(l@));
                    assert forall|i: int| 0 <= i < n implies #[trigger] self.bucket(i)
                        == pre.bucket(i) && self.keys()[i] == pre.keys()[i] by {
                        assert(self.entries@[i] == pre.entries@[i]);
                    }
                    assert(self.keys().no_duplicates()) by {
                        assert forall|i: int| 0 <= i < n implies self.keys()[i] != l@ by {
                            assert(!pre.keys().contains(l@));
                            assert(pre.keys()[i] != l@);
                        }
                    }
                    Self::lemma_len_except(&pre, self, n, n);
                    assert(self.flat_prefix(n).len() == pre.flat_prefix(n).len());
                    assert(self.flat() =~= self.flat_prefix(n) + self.row(n));
                    assert(self.bucket(n).to_set() == Set::<Seq<char>>::empty().insert(r@));
                    assert(self.bucket(n).len() == 1);
                    assert(self.bucket(n).contains(r@)) by {
                        assert(self.bucket(n).to_set().contains(r@));
                    }
                    assert(self.row(n).len() == 1);
                    assert(self.total() == pre.total() + 1);
                    self.lemma_pairs_contains();
                    assert(!pre.pairs().contains((l@, r@))) by {
                        if pre.pairs().contains((l@, r@)) {
                            let k = choose|k: int|
                                0 <= k < pre.keys().len() && pre.keys()[k] == l@
                                    && #[trigger] pre.bucket(k).contains(r@);
                            assert(pre.keys().contains(l@));
                        }
                    }
                    assert forall|p: (Seq<char>, Seq<char>)| #[trigger]
                        self.pairs().contains(p) <==> pre.pairs().insert((l@, r@)).contains(
                        p,
                    ) by {
                        if self.pairs().contains(p) {
                            let i = choose|i: int|
                                0 <= i < self.keys().len() && self.keys()[i] == p.0
                                    && #[trigger] self.bucket(i).contains(p.1);
                            if i < n {
                                assert(pre.pairs().contains(p));
                            } else {
                                assert(self.bucket(n).contains(p.1));
                                assert(self.bucket(n).to_set().contains(p.1));
                                assert(p.1 == r@ && p.0 == l@);
                            }
                        }
                        if pre.pairs().contains(p) {
                            let i = choose|i: int|
                                0 <= i < pre.keys().len() && pre.keys()[i] == p.0
                                    && #[trigger] pre.bucket(i).contains(p.1);
                            assert(self.keys()[i] == p.0 && self.bucket(i).contains(p.1));
                            assert(self.pairs().contains(p));
                        }
                        if p == (l@, r@) {
                            assert(self.keys()[n] == l@ && self.bucket(n).contains(r@));
                            assert(self.pairs().contains(p));
                        }
                    }
                    assert(self.pairs() =~= pre.pairs().insert((l@, r@)));
                }
                true
            },
            Some(i) => {
                assert(old(self).entries@[i as int].1.wf());
                let added = self.entries[i].1.insert(r);
                proof {
                    let ghost pre = *old(self);
                    let ghost n = pre.keys().len() as int;
                    let ghost ii = i as int;
                    assert(self.keys() =~= pre.keys());
                    assert forall|k: int| 0 <= k < n && k != ii implies #[trigger] self.bucket(k)
                        == pre.bucket(k) by {
                        assert(self.entries@[k] == pre.entries@[k]);
                    }
                    assert(self.bucket(ii).to_set() == pre.bucket(ii).to_set().insert(r@));
                    assert(self.entries@[ii].1.wf());
                    Self::lemma_len_except(&pre, self, n, ii);
                    self.lemma_pairs_contains();
                    assert(added == !pre.bucket(ii).contains(r@)) by {
                        assert(pre.bucket(ii).to_set().contains(r@) == pre.bucket(ii).contains(
                            r@,
                        ));
                    }
                    assert(added == !pre.pairs().contains((l@, r@))) by {
                        if pre.pairs().contains((l@, r@)) {
                            let k = choose|k: int|
                                0 <= k < pre.keys().len() && pre.keys()[k] == l@
                                    && #[trigger] pre.bucket(k).contains(r@);
                            assert(k == ii);
                        }
                        if pre.bucket(ii).contains(r@) {
                            let ghost p = (l@, r@);
                            assert(pre.keys()[ii] == p.0);
                            assert(pre.bucket(ii).contains(p.1));
                            assert(pre.pairs().contains(p));
                        }
                    }
                    assert forall|p: (Seq<char>, Seq<char>)| #[trigger]
                        self.pairs().contains(p) <==> pre.pairs().insert((l@, r@)).contains(
                        p,
                    ) by {
                        if self.pairs().contains(p) {
                            let k = choose|k: int|
                                0 <= k < self.keys().len() && self.keys()[k] == p.0
                                    && #[trigger] self.bucket(k).contains(p.1);
                            if k != ii {
                                assert(pre.bucket(k).contains(p.1));
                                assert(pre.pairs().contains(p));
                            } else {
                                assert(self.bucket(ii).to_set().contains(p.1));
                                if p.1 == r@ {
                                    assert(p.0 == l@);
                                } else {
                                    assert(pre.bucket(ii).to_set().contains(p.1));
                                    assert(pre.bucket(ii).contains(p.1));
                                    assert(pre.pairs().contains(p));
                                }
                            }
                        }
                        if pre.pairs().contains(p) {
                            let k = choose|k: int|
                                0 <= k < pre.keys().len() && pre.keys()[k] == p.0
                                    && #[trigger] pre.bucket(k).contains(p.1);
                            if k != ii {
                                assert(self.bucket(k).contains(p.1));
                            } else {
                                assert(pre.bucket(ii).to_set().contains(p.1));
                                assert(self.bucket(ii).to_set().contains(p.1));
                                assert(self.bucket(ii).contains(p.1));
                            }
                            assert(self.pairs().contains(p));
                        }
                        if p == (l@, r@) {
                            assert(self.bucket(ii).to_set().contains(r@));
                            assert(self.bucket(ii).contains(r@));
                            assert(self.pairs().contains(p));
                        }
                    }
                    assert(self.pairs() =~= pre.pairs().insert((l@, r@)));
                }
                added
            },
        }
    }

    /// Unrecords one pair; a left token whose bucket empties keeps its
    /// empty bucket. Reports whether the pair was recorded.
    pub fn remove_pair(&mut self, l: &str, r: &str) -> (was_there: bool)
        requires
            old(self).wf(),
        ensures
            final(self).wf(),
            was_there == old(self).pairs().contains((l@, r@)),
            final(self).pairs() == old(self).pairs().remove((l@, r@)),
            final(self).total() == old(self).total() - (if was_there {
                1int
            } else {
                0int
            }),
    {
        proof {
            old(self).lemma_pairs_contains();
        }
        let found = self.find(l);
        match found {
            None => {
                proof {
                    if old(self).pairs().contains((l@, r@)) {
                        let k = choose|k: int|
                            0 <= k < old(self).keys().len() && old(self).keys()[k] == l@
                                && #[trigger] old(self).bucket(k).contains(r@);
                        assert(old(self).keys().contains(l@));
                    }
                    assert(self.pairs() =~= old(self).pairs().remove((l@, r@)));
                }
                false
            },
            Some(i) => {
                assert(old(self).entries@[i as int].1.wf());
                let was_there = self.entries[i].1.remove(r);
                proof {
                    let ghost pre = *old(self);
                    let ghost n = pre.keys().len() as int;
                    let ghost ii = i as int;
                    assert(self.keys() =~= pre.keys());
                    assert forall|k: int| 0 <= k < n && k != ii implies #[trigger] self.bucket(k)
                        == pre.bucket(k) by {
                        assert(self.entries@[k] == pre.entries@[k]);
                    }
                    assert(self.bucket(ii).to_set() == pre.bucket(ii).to_set().remove(r@));
                    assert(self.entries@[ii].1.wf());
                    Self::lemma_len_except(&pre, self, n, ii);
                    self.lemma_pairs_contains();
                    assert(was_there == pre.bucket(ii).contains(r@)) by {
                        assert(pre.bucket(ii).to_set().contains(r@) == pre.bucket(ii).contains(
                            r@,
                        ));
                    }
                    assert(was_there == pre.pairs().contains((l@, r@))) by {
                        if pre.pairs().contains((l@, r@)) {
                            let k = choose|k: int|
                                0 <= k < pre.keys().len() && pre.keys()[k] == l@
                                    && #[trigger] pre.bucket(k).contains(r@);
                            assert(k == ii);
                        }
                        if pre.bucket(ii).contains(r@) {
                            let ghost p = (l@, r@);
                            assert(pre.keys()[ii] == p.0);
                            assert(pre.bucket(ii).contains(p.1));
                            assert(pre.pairs().contains(p));
                        }
                    }
                    assert forall|p: (Seq<char>, Seq<char>)| #[trigger]
                        self.pairs().contains(p) <==> pre.pairs().remove((l@, r@)).contains(
                        p,
                    ) by {
                        if self.pairs().contains(p) {
                            let k = choose|k: int|
                                0 <= k < self.keys().len() && self.keys()[k] == p.0
                                    && #[trigger] self.bucket(k).contains(p.1);
                            if k != ii {
                                assert(pre.bucket(k).contains(p.1));
                                assert(pre.pairs().contains(p));
                                assert(p.0 != l@);
                            } else {
                                assert(self.bucket(ii).to_set().contains(p.1));
                                assert(p.1 != r@ || !self.bucket(ii).to_set().contains(r@));
                                assert(pre.bucket(ii).to_set().contains(p.1));
                                assert(pre.bucket(ii).contains(p.1));
                                assert(pre.pairs().contains(p));
                                if p == (l@, r@) {
                                    assert(!self.bucket(ii).to_set().contains(r@));
                                    assert(false);
                                }
                            }
                        }
                        if pre.pairs().contains(p) && p != (l@, r@) {
                            let k = choose|k: int|
                                0 <= k < pre.keys().len() && pre.keys()[k] == p.0
                                    && #[trigger] pre.bucket(k).contains(p.1);
                            if k != ii {
                                assert(self.bucket(k).contains(p.1));
                            } else {
                                assert(pre.bucket(ii).to_set().contains(p.1));
                                if p.1 == r@ {
                                    assert(p.0 == l@);
                                    assert(false);
                                }
                                assert(self.bucket(ii).to_set().contains(p.1));
                                assert(self.bucket(ii).contains(p.1));
                            }
                            assert(self.pairs().contains(p));
                        }
                    }
                    assert(self.pairs() =~= pre.pairs().remove((l@, r@)));
                }
                was_there
            },
        }
    }

    pub fn clear(&mut self)
        ensures
            final(self).wf(),
            final(self).pairs() == Set::<(Seq<char>, Seq<char>)>::empty(),
            final(self).total() == 0,
            final(self).keys().len() == 0,
    {
        self.entries.clear();
        proof {
            assert(self.keys() =~= Seq::<Seq<char>>::empty());
            assert(self.pairs() =~= Set::<(Seq<char>, Seq<char>)>::empty());
        }
    }

    /// The number of recorded pairs, summed over every bucket.
    pub fn pair_count(&self) -> (r: usize)
        requires
            self.wf(),
        ensures
            r == self.total(),
            r == self.pairs().len(),
    {
        proof {
            self.lemma_pairs_card();
        }
        let n = self.entries.len();
        let mut acc: usize = 0;
        let mut i: usize = 0;
        while i < n
            invariant
                self.wf(),
                n == self.entries.len(),
                0 <= i <= n,
                acc == self.flat_prefix(i as int).len(),
            decreases n - i,
        {
            proof {
                self.lemma_prefix_mono(i + 1, n as int);
                assert(self.entries@[i as int].1.wf());
            }
            acc = acc + self.entries[i].1.seq_len();
            i += 1;
        }
        acc
    }

    /// The number of left tokens, buckets left empty included.
    pub fn key_count(&self) -> (r: usize)
        ensures
            r == self.keys().len(),
    {
        self.entries.len()
    }

    /// The left token at one storage position.
    pub fn key_at(&self, i: usize) -> (r: &String)
        requires
            i < self.keys().len(),
        ensures
            r@ == self.keys()[i as int],
    {
        &self.entries[i].0
    }

    /// The number of collocates of the left token at one position.
    pub fn bucket_len(&self, i: usize) -> (r: usize)
        requires
            i < self.keys().len(),
        ensures
            r == self.bucket(i as int).len(),
    {
        self.entries[i].1.seq_len()
    }

    /// One collocate of the left token at one position.
    pub fn bucket_at(&self, i: usize, j: usize) -> (r: &String)
        requires
            i < self.keys().len(),
            j < self.bucket(i as int).len(),
        ensures
            r@ == self.bucket(i as int)[j as int],
    {
        self.entries[i].1.at(j)
    }

    /// One recorded pair pinned to its place in the flattened stream.
    proof fn lemma_stream_index(&self, i: int, j: int)
        requires
            0 <= i < self.keys().len(),
            0 <= j < self.bucket(i).len(),
        ensures
            self.flat_prefix(i).len() + j < self.total(),
            self.flat()[self.flat_prefix(i).len() + j] == (self.keys()[i], self.bucket(i)[j]),
    {
        self.lemma_flat_index(i, j);
    }

    /// A fully consumed prefix count means the whole stream was seen.
    proof fn lemma_prefix_all(&self)
        ensures
            self.flat_prefix(self.keys().len() as int) == self.flat(),
    {
    }

    /// Stepping the outer cursor past an exhausted bucket keeps the
    /// stream position.
    proof fn lemma_prefix_step(&self, i: int)
        requires
            0 <= i < self.keys().len(),
        ensures
            self.flat_prefix(i + 1).len() == self.flat_prefix(i).len() + self.bucket(i).len(),
    {
    }


    /// A lazy cursor over every recorded pair, starting at the first.
    pub fn iter<'a>(&'a self) -> (r: CollocationsIterator<'a>)
        requires
            self.wf(),
        ensures
            r.wf(),
            r.pos() == 0,
            r.stream() == self.flat(),
            r.stream().to_set() == self.pairs(),
            r.stream().no_duplicates(),
            r.stream().len() == self.pairs().len(),
    {
        proof {
            self.lemma_pairs_card();
        }
        CollocationsIterator { map: self, outer: 0, inner: 0 }
    }
}

/// A lazy, non-allocating cursor that flattens the two-level collocation
/// storage into a stream of (left token, right token) pairs. It emits
/// every recorded pair exactly once and then stays exhausted.
pub struct CollocationsIterator<'a> {
    map: &'a ColloMap,
    outer: usize,
    inner: usize,
}

impl<'a> CollocationsIterator<'a> {
    /// The full stream of pairs the cursor walks.
    pub closed spec fn stream(&self) -> Seq<(Seq<char>, Seq<char>)> {
        self.map.flat()
    }

    /// How many pairs were already emitted.
    pub closed spec fn pos(&self) -> int {
        self.map.flat_prefix(self.outer as int).len() + self.inner
    }

    /// The cursor stands inside or just past its stream.
    pub closed spec fn wf(&self) -> bool {
        &&& self.map.wf()
        &&& self.outer <= self.map.keys().len()
        &&& (self.outer < self.map.keys().len() ==> self.inner <= self.map.bucket(
            self.outer as int,
        ).len())
        &&& (self.outer == self.map.keys().len() ==> self.inner == 0)
    }

    /// Emits the next pair of the stream, or nothing once every
    /// recorded pair was emitted. An exhausted cursor stays exhausted.
    pub fn next(&mut self) -> (r: Option<(&'a str, &'a str)>)
        requires
            old(self).wf(),
        ensures
            final(self).wf(),
            final(self).stream() == old(self).stream(),
            old(self).pos() < old(self).stream().len() ==> (r matches Some(pair) && pair.0@
                == old(self).stream()[old(self).pos()].0 && pair.1@ == old(self).stream()[old(
                self,
            ).pos()].1 && final(self).pos() == old(self).pos() + 1),
            old(self).pos() >= old(self).stream().len() ==> (r is None && final(self).pos()
                == old(self).pos()),
    {
        let n = self.map.key_count();
        while self.outer < n && self.inner >= self.map.bucket_len(self.outer)
            invariant
                self.wf(),
                n == self.map.keys().len(),
                self.map == old(self).map,
                self.pos() == old(self).pos(),
            decreases n - self.outer,
        {
            proof {
                self.map.lemma_prefix_step(self.outer as int);
            }
            self.outer += 1;
            self.inner = 0;
        }
        if self.outer < n {
            let l: &'a str = self.map.key_at(self.outer).as_str();
            let rt: &'a str = self.map.bucket_at(self.outer, self.inner).as_str();
            proof {
                self.map.lemma_stream_index(self.outer as int, self.inner as int);
            }
            self.inner += 1;
            Some((l, rt))
        } else {
            proof {
                self.map.lemma_prefix_all();
            }
            None
        }
    }

    /// A deliberately loose hint: the number of left tokens not yet
    /// passed bounds nothing but itself; the upper bound is unknown.
    /// The count includes the left token under the cursor until the
    /// outer cursor steps past it, even when its bucket is already
    /// drained or was empty to begin with.
    pub fn size_hint(&self) -> (r: (usize, Option<usize>))
        requires
            self.wf(),
        ensures
            r.0 == self.remaining_keys(),
            r.1 is None,
    {
        (self.map.key_count() - self.outer, None::<usize>)
    }

    /// The number of left tokens the outer cursor has not passed.
    pub closed spec fn remaining_keys(&self) -> int {
        self.map.keys().len() - self.outer
    }
}

} // verus!
