//! The training-data store: four containers of learned vocabulary with
//! insert-if-absent, remove-reports-presence and pure query operations.
use vstd::prelude::*;

use crate::OrthographicContext;
use crate::collocations::ColloMap;
use crate::collocations::CollocationsIterator;
use crate::ortho::OrthoMap;
use crate::strset::StrSet;

verus! {

broadcast use vstd::set::group_set_axioms, vstd::seq::group_seq_axioms, vstd::map::group_map_axioms;

/// Learned knowledge accumulated from a training corpus: abbreviations,
/// collocations, sentence starters and per-token orthographic context.
pub struct TrainingData {
    abbrev_types: StrSet,
    collocations: ColloMap,
    sentence_starters: StrSet,
    orthographic_context: OrthoMap,
}

impl TrainingData {
    /// The set of abbreviation tokens.
    pub closed spec fn abbrevs(&self) -> Set<Seq<char>> {
        self.abbrev_types.set()
    }

    /// The set of recorded (left, right) collocation pairs.
    pub closed spec fn pairs(&self) -> Set<(Seq<char>, Seq<char>)> {
        self.collocations.pairs()
    }

    /// The set of sentence-starter tokens.
    pub closed spec fn starters(&self) -> Set<Seq<char>> {
        self.sentence_starters.set()
    }

    /// The map from tokens to their orthographic context flags.
    pub closed spec fn ortho(&self) -> Map<Seq<char>, OrthographicContext> {
        self.orthographic_context.view_map()
    }

    /// All four containers are internally consistent.
    pub closed spec fn wf(&self) -> bool {
        &&& self.abbrev_types.wf()
        &&& self.collocations.wf()
        &&& self.sentence_starters.wf()
        &&& self.orthographic_context.wf()
    }

    /// Every model but the abbreviations is unchanged.
    pub open spec fn same_but_abbrevs(&self, other: &TrainingData) -> bool {
        &&& self.pairs() == other.pairs()
        &&& self.starters() == other.starters()
        &&& self.ortho() == other.ortho()
    }

    /// Every model but the collocations is unchanged.
    pub open spec fn same_but_pairs(&self, other: &TrainingData) -> bool {
        &&& self.abbrevs() == other.abbrevs()
        &&& self.starters() == other.starters()
        &&& self.ortho() == other.ortho()
    }

    /// Every model but the sentence starters is unchanged.
    pub open spec fn same_but_starters(&self, other: &TrainingData) -> bool {
        &&& self.abbrevs() == other.abbrevs()
        &&& self.pairs() == other.pairs()
        &&& self.ortho() == other.ortho()
    }

    /// Every model but the orthographic context is unchanged.
    pub open spec fn same_but_ortho(&self, other: &TrainingData) -> bool {
        &&& self.abbrevs() == other.abbrevs()
        &&& self.pairs() == other.pairs()
        &&& self.starters() == other.starters()
    }

    pub fn new() -> (r: TrainingData)
        ensures
            r.wf(),
            r.abbrevs() == Set::<Seq<char>>::empty(),
            r.pairs() == Set::<(Seq<char>, Seq<char>)>::empty(),
            r.starters() == Set::<Seq<char>>::empty(),
            r.ortho() == Map::<Seq<char>, OrthographicContext>::empty(),
    {
        TrainingData {
            abbrev_types: StrSet::new(),
            collocations: ColloMap::new(),
            sentence_starters: StrSet::new(),
            orthographic_context: OrthoMap::new(),
        }
    }

    /// Inserts an abbreviation if it does not already exist.
    pub fn insert_abbrev(&mut self, abbrev: &str) -> (added: bool)
        requires
            old(self).wf(),
        ensures
            final(self).wf(),
            added == !old(self).abbrevs().contains(abbrev@),
            final(self).abbrevs() == old(self).abbrevs().insert(abbrev@),
            final(self).same_but_abbrevs(old(self)),
    {
        if !self.abbrev_types.contains(abbrev) {
            self.abbrev_types.insert(abbrev)
        } else {
            proof {
                assert(self.abbrevs() =~= old(self).abbrevs().insert(abbrev@));
            }
            false
        }
    }

    /// Records a collocation, creating the left token's bucket on first
    /// use; reports whether the pair is new.
    pub fn insert_collocation(&mut self, tok0: &str, tok1: &str) -> (added: bool)
        requires
            old(self).wf(),
            old(self).pairs().len() < usize::MAX,
        ensures
            final(self).wf(),
            added == !old(self).pairs().contains((tok0@, tok1@)),
            final(self).pairs() == old(self).pairs().insert((tok0@, tok1@)),
            final(self).pairs().len() == old(self).pairs().len() + (if added {
                1int
            } else {
                0int
            }),
            final(self).same_but_pairs(old(self)),
    {
        proof {
            self.collocations.lemma_pairs_card();
        }
        let added = self.collocations.insert_pair(tok0, tok1);
        proof {
            self.collocations.lemma_pairs_card();
        }
        added
    }

    /// Inserts a sentence starter if it does not already exist.
    pub fn insert_sentence_starter(&mut self, tok: &str) -> (added: bool)
        requires
            old(self).wf(),
        ensures
            final(self).wf(),
            added == !old(self).starters().contains(tok@),
            final(self).starters() == old(self).starters().insert(tok@),
            final(self).same_but_starters(old(self)),
    {
        if !self.sentence_starters.contains(tok) {
            self.sentence_starters.insert(tok)
        } else {
            proof {
                assert(self.starters() =~= old(self).starters().insert(tok@));
            }
            false
        }
    }

    /// Stores a token's orthographic context unless one is already
    /// stored: the first stored value wins.
    pub fn insert_orthographic_context(&mut self, tok: &str, ctxt: OrthographicContext) -> (added:
        bool)
        requires
            old(self).wf(),
        ensures
            final(self).wf(),
            added == !old(self).ortho().dom().contains(tok@),
            final(self).ortho() == if added {
                old(self).ortho().insert(tok@, ctxt)
            } else {
                old(self).ortho()
            },
            final(self).same_but_ortho(old(self)),
    {
        self.orthographic_context.insert_if_absent(tok, ctxt)
    }

    /// The abbreviation storage, for the loading protocol.
    pub(crate) fn abbrev_store(&self) -> (r: &StrSet)
        ensures
            r.set() == self.abbrevs(),
            self.wf() ==> r.wf(),
    {
        &self.abbrev_types
    }

    /// The sentence-starter storage, for the loading protocol.
    pub(crate) fn starter_store(&self) -> (r: &StrSet)
        ensures
            r.set() == self.starters(),
            self.wf() ==> r.wf(),
    {
        &self.sentence_starters
    }

    /// The collocation storage, for the loading protocol.
    pub(crate) fn colloc_store(&self) -> (r: &ColloMap)
        ensures
            r.pairs() == self.pairs(),
            self.wf() ==> r.wf(),
    {
        &self.collocations
    }

    /// The orthographic context storage, for the loading protocol.
    pub(crate) fn ortho_store(&self) -> (r: &OrthoMap)
        ensures
            r.view_map() == self.ortho(),
            self.wf() ==> r.wf(),
    {
        &self.orthographic_context
    }

    /// Stores a token's orthographic context, replacing any stored one;
    /// the loading protocol lets a repeated token keep its last value.
    pub(crate) fn put_orthographic_context(&mut self, tok: &str, ctxt: OrthographicContext)
        requires
            old(self).wf(),
        ensures
            final(self).wf(),
            final(self).ortho() == old(self).ortho().insert(tok@, ctxt),
            final(self).same_but_ortho(old(self)),
    {
        self.orthographic_context.put(tok, ctxt);
    }

    /// Clears all abbreviations; the other containers are untouched.
    pub fn clear_abbrevs(&mut self)
        requires
            old(self).wf(),
        ensures
            final(self).wf(),
            final(self).abbrevs() == Set::<Seq<char>>::empty(),
            final(self).same_but_abbrevs(old(self)),
    {
        self.abbrev_types.clear();
    }

    /// Clears all collocations; the other containers are untouched.
    pub fn clear_collocations(&mut self)
        requires
            old(self).wf(),
        ensures
            final(self).wf(),
            final(self).pairs() == Set::<(Seq<char>, Seq<char>)>::empty(),
            final(self).same_but_pairs(old(self)),
    {
        self.collocations.clear();
    }

    /// Clears all sentence starters; the other containers are untouched.
    pub fn clear_sentence_starters(&mut self)
        requires
            old(self).wf(),
        ensures
            final(self).wf(),
            final(self).starters() == Set::<Seq<char>>::empty(),
            final(self).same_but_starters(old(self)),
    {
        self.sentence_starters.clear();
    }

    /// Clears all orthographic context; the other containers are
    /// untouched.
    pub fn clear_orthographic_context(&mut self)
        requires
            old(self).wf(),
        ensures
            final(self).wf(),
            final(self).ortho() == Map::<Seq<char>, OrthographicContext>::empty(),
            final(self).same_but_ortho(old(self)),
    {
        self.orthographic_context.clear();
    }

    /// Removes an abbreviation; reports whether it was present.
    pub fn remove_abbrev(&mut self, abbrev: &str) -> (was_there: bool)
        requires
            old(self).wf(),
        ensures
            final(self).wf(),
            was_there == old(self).abbrevs().contains(abbrev@),
            final(self).abbrevs() == old(self).abbrevs().remove(abbrev@),
            final(self).same_but_abbrevs(old(self)),
    {
        self.abbrev_types.remove(abbrev)
    }

    /// Unrecords a collocation; reports whether it was recorded. A left
    /// token with no bucket leaves the store unchanged.
    pub fn remove_collocation(&mut self, tok0: &str, tok1: &str) -> (was_there: bool)
        requires
            old(self).wf(),
        ensures
            final(self).wf(),
            was_there == old(self).pairs().contains((tok0@, tok1@)),
            final(self).pairs() == old(self).pairs().remove((tok0@, tok1@)),
            final(self).same_but_pairs(old(self)),
    {
        self.collocations.remove_pair(tok0, tok1)
    }

    /// Removes a sentence starter; reports whether it was present.
    pub fn remove_sentence_starter(&mut self, tok: &str) -> (was_there: bool)
        requires
            old(self).wf(),
        ensures
            final(self).wf(),
            was_there == old(self).starters().contains(tok@),
            final(self).starters() == old(self).starters().remove(tok@),
            final(self).same_but_starters(old(self)),
    {
        self.sentence_starters.remove(tok)
    }

    /// Drops a token's orthographic context; reports whether one was
    /// stored.
    pub fn remove_orthographic_context(&mut self, tok: &str) -> (was_there: bool)
        requires
            old(self).wf(),
        ensures
            final(self).wf(),
            was_there == old(self).ortho().dom().contains(tok@),
            final(self).ortho() == old(self).ortho().remove(tok@),
            final(self).same_but_ortho(old(self)),
    {
        self.orthographic_context.remove(tok)
    }

    /// Whether a collocation is recorded.
    pub fn contains_collocation(&self, tok0: &str, tok1: &str) -> (r: bool)
        requires
            self.wf(),
        ensures
            r == self.pairs().contains((tok0@, tok1@)),
    {
        self.collocations.contains_pair(tok0, tok1)
    }

    /// Whether a sentence starter is present.
    pub fn contains_sentence_starter(&self, tok: &str) -> (r: bool)
        requires
            self.wf(),
        ensures
            r == self.starters().contains(tok@),
    {
        self.sentence_starters.contains(tok)
    }

    /// Whether an abbreviation is present.
    pub fn contains_abbrev(&self, tok: &str) -> (r: bool)
        requires
            self.wf(),
        ensures
            r == self.abbrevs().contains(tok@),
    {
        self.abbrev_types.contains(tok)
    }

    /// Whether a token has a stored orthographic context.
    pub fn contains_orthographic_context(&self, tok: &str) -> (r: bool)
        requires
            self.wf(),
        ensures
            r == self.ortho().dom().contains(tok@),
    {
        self.orthographic_context.contains_key(tok)
    }

    /// A token's orthographic context, when one is stored.
    pub fn get_orthographic_context(&self, tok: &str) -> (r: Option<OrthographicContext>)
        requires
            self.wf(),
        ensures
            r == if self.ortho().dom().contains(tok@) {
                Some(self.ortho()[tok@])
            } else {
                None
            },
    {
        self.orthographic_context.get(tok)
    }

    /// The number of recorded collocations: every collocate of every
    /// left token counts, not the number of left tokens.
    pub fn collocations_len(&self) -> (r: usize)
        requires
            self.wf(),
        ensures
            r == self.pairs().len(),
    {
        self.collocations.pair_count()
    }

    /// The number of abbreviations.
    pub fn abbrevs_len(&self) -> (r: usize)
        requires
            self.wf(),
        ensures
            r == self.abbrevs().len(),
    {
        self.abbrev_types.len()
    }

    /// The number of sentence starters.
    pub fn sentence_starters_len(&self) -> (r: usize)
        requires
            self.wf(),
        ensures
            r == self.starters().len(),
    {
        self.sentence_starters.len()
    }

    /// The number of tokens with a stored orthographic context.
    pub fn orthographic_context_len(&self) -> (r: usize)
        requires
            self.wf(),
        ensures
            r == self.ortho().dom().len(),
    {
        self.orthographic_context.len()
    }

    /// Every abbreviation, each exactly once, in no promised order.
    pub fn abbrevs_iter(&self) -> (r: Vec<String>)
        requires
            self.wf(),
        ensures
            r@.len() == self.abbrevs().len(),
            forall|i: int| 0 <= i < r@.len() ==> self.abbrevs().contains(#[trigger] r@[i]@),
            forall|i: int, j: int|
                0 <= i < r@.len() && 0 <= j < r@.len() && i != j ==> r@[i]@ != r@[j]@,
            forall|x: Seq<char>| #[trigger]
                self.abbrevs().contains(x) ==> exists|i: int|
                    0 <= i < r@.len() && #[trigger] r@[i]@ == x,
    {
        proof {
            self.abbrev_types.lemma_card();
        }
        let r = self.abbrev_types.to_vec();
        proof {
            assert forall|x: Seq<char>| #[trigger] self.abbrevs().contains(x) implies exists|i: int|
                0 <= i < r@.len() && #[trigger] r@[i]@ == x by {
                assert(self.abbrev_types.strs().contains(x));
                let j = choose|j: int|
                    0 <= j < self.abbrev_types.strs().len() && self.abbrev_types.strs()[j] == x;
                assert(r@[j]@ == x);
            }
            assert forall|i: int| 0 <= i < r@.len() implies self.abbrevs().contains(
                #[trigger] r@[i]@,
            ) by {
                assert(r@[i]@ == self.abbrev_types.strs()[i]);
                assert(self.abbrev_types.strs().contains(r@[i]@));
            }
            assert forall|i: int, j: int|
                0 <= i < r@.len() && 0 <= j < r@.len() && i != j implies r@[i]@ != r@[j]@ by {
                assert(r@[i]@ == self.abbrev_types.strs()[i]);
                assert(r@[j]@ == self.abbrev_types.strs()[j]);
            }
        }
        r
    }

    /// Every sentence starter, each exactly once, in no promised order.
    pub fn sentence_starters_iter(&self) -> (r: Vec<String>)
        requires
            self.wf(),
        ensures
            r@.len() == self.starters().len(),
            forall|i: int| 0 <= i < r@.len() ==> self.starters().contains(#[trigger] r@[i]@),
            forall|i: int, j: int|
                0 <= i < r@.len() && 0 <= j < r@.len() && i != j ==> r@[i]@ != r@[j]@,
            forall|x: Seq<char>| #[trigger]
                self.starters().contains(x) ==> exists|i: int|
                    0 <= i < r@.len() && #[trigger] r@[i]@ == x,
    {
        proof {
            self.sentence_starters.lemma_card();
        }
        let r = self.sentence_starters.to_vec();
        proof {
            assert forall|x: Seq<char>| #[trigger] self.starters().contains(x) implies exists|i: int|
                0 <= i < r@.len() && #[trigger] r@[i]@ == x by {
                assert(self.sentence_starters.strs().contains(x));
                let j = choose|j: int|
                    0 <= j < self.sentence_starters.strs().len() && self.sentence_starters.strs()[j]
                        == x;
                assert(r@[j]@ == x);
            }
            assert forall|i: int| 0 <= i < r@.len() implies self.starters().contains(
                #[trigger] r@[i]@,
            ) by {
                assert(r@[i]@ == self.sentence_starters.strs()[i]);
                assert(self.sentence_starters.strs().contains(r@[i]@));
            }
            assert forall|i: int, j: int|
                0 <= i < r@.len() && 0 <= j < r@.len() && i != j implies r@[i]@ != r@[j]@ by {
                assert(r@[i]@ == self.sentence_starters.strs()[i]);
                assert(r@[j]@ == self.sentence_starters.strs()[j]);
            }
        }
        r
    }

    /// A lazy cursor over every recorded collocation. It emits a stream
    /// that repeats no pair and covers exactly the recorded pairs, so
    /// each is yielded exactly once, whatever the storage order.
    pub fn collocations_iter<'a>(&'a self) -> (r: CollocationsIterator<'a>)
        requires
            self.wf(),
        ensures
            r.wf(),
            r.pos() == 0,
            r.stream().to_set() == self.pairs(),
            r.stream().no_duplicates(),
            r.stream().len() == self.pairs().len(),
    {
        self.collocations.iter()
    }

    /// Every token with its orthographic context, each token exactly
    /// once, in no promised order.
    pub fn orthographic_context_iter(&self) -> (r: Vec<(String, OrthographicContext)>)
        requires
            self.wf(),
        ensures
            r@.len() == self.ortho().dom().len(),
            forall|i: int|
                0 <= i < r@.len() ==> self.ortho().dom().contains(#[trigger] r@[i].0@)
                    && self.ortho()[r@[i].0@] == r@[i].1,
            forall|i: int, j: int|
                0 <= i < r@.len() && 0 <= j < r@.len() && i != j ==> r@[i].0@ != r@[j].0@,
            forall|k: Seq<char>| #[trigger]
                self.ortho().dom().contains(k) ==> exists|i: int|
                    0 <= i < r@.len() && (#[trigger] r@[i]).0@ == k,
    {
        self.orthographic_context.to_vec()
    }
}

impl Default for TrainingData {
    /// An empty store: no data in any of the four containers.
    fn default() -> (r: TrainingData)
        ensures
            r.wf(),
            r.abbrevs() == Set::<Seq<char>>::empty(),
            r.pairs() == Set::<(Seq<char>, Seq<char>)>::empty(),
            r.starters() == Set::<Seq<char>>::empty(),
            r.ortho() == Map::<Seq<char>, OrthographicContext>::empty(),
    {
        TrainingData::new()
    }
}

/// A token not yet stored is accepted as new and is a member
/// afterwards; storing it again finds it present and leaves the set of
/// abbreviations exactly as it was.
pub proof fn lemma_abbrev_insert_idempotent(s: Set<Seq<char>>, t: Seq<char>)
    requires
        !s.contains(t),
    ensures
        s.insert(t).contains(t),
        s.insert(t).insert(t) == s.insert(t),
{
    assert(s.insert(t).insert(t) =~= s.insert(t));
}

/// Recording a fresh collocation makes it contained and grows the
/// collocation count by exactly one, however many left tokens exist.
pub proof fn lemma_collocation_insert_counts(
    p: Set<(Seq<char>, Seq<char>)>,
    l: Seq<char>,
    r: Seq<char>,
)
    requires
        p.finite(),
        !p.contains((l, r)),
    ensures
        p.insert((l, r)).contains((l, r)),
        p.insert((l, r)).len() == p.len() + 1,
{
}

/// A token's first stored orthographic context wins: once a value is
/// stored, the token is in the domain, so a later store for the same
/// token changes nothing and the first value is still read back.
pub proof fn lemma_ortho_write_once(
    m: Map<Seq<char>, OrthographicContext>,
    t: Seq<char>,
    v1: OrthographicContext,
)
    requires
        !m.dom().contains(t),
    ensures
        m.insert(t, v1).dom().contains(t),
        m.insert(t, v1)[t] == v1,
{
}

/// Removing a collocation whose left token heads no recorded pair
/// reports nothing removed and leaves the pairs exactly as they were.
pub proof fn lemma_remove_absent_collocation(
    p: Set<(Seq<char>, Seq<char>)>,
    l: Seq<char>,
    r: Seq<char>,
)
    requires
        forall|x: (Seq<char>, Seq<char>)| p.contains(x) ==> x.0 != l,
    ensures
        !p.contains((l, r)),
        p.remove((l, r)) == p,
{
    assert(p.remove((l, r)) =~= p);
}

} // verus!
