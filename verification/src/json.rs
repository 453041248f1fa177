//! The loading protocol: a parsed JSON tree is walked and validated
//! field by field into a populated store, failing atomically on any
//! missing or mis-shaped field; and the reverse direction, serializing
//! a store into the same shape. Parsing text into the tree is the one
//! step done by an outside JSON parser.
use vstd::prelude::*;

use rustc_serialize::json::Json;

use crate::data::TrainingData;

verus! {

broadcast use vstd::set::group_set_axioms, vstd::seq::group_seq_axioms, vstd::map::group_map_axioms;

/// A parsed JSON value. Numbers are reduced to what the loading
/// protocol reads: representable as a non-negative integer, or not.
pub enum JsonNode {
    Null,
    Bool(bool),
    UInt(u64),
    OtherNum,
    Str(String),
    Arr(Vec<JsonNode>),
    Obj(Vec<(String, JsonNode)>),
}

/// What one element of the collocation array contributes: a pair, or
/// a malformed entry that fails the whole load.
pub enum CollocElem {
    Pair(Seq<char>, Seq<char>),
    Bad,
}

/// The membership a well-shaped document describes.
pub struct LoadModel {
    pub abbrevs: Set<Seq<char>>,
    pub pairs: Set<(Seq<char>, Seq<char>)>,
    pub starters: Set<Seq<char>>,
    pub ortho: Map<Seq<char>, u8>,
}

/// The value of the first field with the given key, if any.
pub open spec fn obj_lookup(fields: Seq<(String, JsonNode)>, key: Seq<char>) -> Option<JsonNode>
    decreases fields.len(),
{
    if fields.len() == 0 {
        None
    } else if fields[0].0@ == key {
        Some(fields[0].1)
    } else {
        obj_lookup(fields.drop_first(), key)
    }
}

/// The string elements of an array; anything else is skipped.
pub open spec fn str_elems(s: Seq<JsonNode>) -> Set<Seq<char>>
    decreases s.len(),
{
    if s.len() == 0 {
        Set::empty()
    } else {
        let rest = str_elems(s.drop_last());
        match s.last() {
            JsonNode::Str(t) => rest.insert(t@),
            _ => rest,
        }
    }
}

/// A collocation entry must be an array, read from the tail: its last
/// two elements must be strings and become the (left, right) pair.
/// Anything else, a non-array element included, is malformed.
pub open spec fn colloc_elem(n: JsonNode) -> CollocElem {
    match n {
        JsonNode::Arr(v) => if v@.len() >= 2 {
            match (v@[v@.len() - 2], v@[v@.len() - 1]) {
                (JsonNode::Str(l), JsonNode::Str(r)) => CollocElem::Pair(l@, r@),
                _ => CollocElem::Bad,
            }
        } else {
            CollocElem::Bad
        },
        _ => CollocElem::Bad,
    }
}

/// The pairs of a collocation array, or nothing when any entry is
/// malformed: one bad entry fails the whole array.
pub open spec fn colloc_pairs(s: Seq<JsonNode>) -> Option<Set<(Seq<char>, Seq<char>)>>
    decreases s.len(),
{
    if s.len() == 0 {
        Some(Set::empty())
    } else {
        match colloc_pairs(s.drop_last()) {
            None => None,
            Some(ps) => match colloc_elem(s.last()) {
                CollocElem::Pair(l, r) => Some(ps.insert((l, r))),
                CollocElem::Bad => None,
            },
        }
    }
}

/// The token-to-flag map of the context object: values representable
/// as a non-negative integer are narrowed to the flag width; other
/// values are skipped. A repeated token keeps its last value.
pub open spec fn ortho_entries(s: Seq<(String, JsonNode)>) -> Map<Seq<char>, u8>
    decreases s.len(),
{
    if s.len() == 0 {
        Map::empty()
    } else {
        let m = ortho_entries(s.drop_last());
        match s.last().1 {
            JsonNode::UInt(u) => m.insert(s.last().0@, (u % 256) as u8),
            _ => m,
        }
    }
}

/// What loading a document yields: the four memberships of a
/// well-shaped document, or nothing. Every top-level field must be
/// present with the expected shape; any malformed collocation entry,
/// a non-array element included, fails the load; a non-string element
/// of the two flat arrays and a non-integer context value are skipped.
pub open spec fn spec_load(n: JsonNode) -> Option<LoadModel> {
    match n {
        JsonNode::Obj(fields) => match obj_lookup(fields@, "abbrev_types"@) {
            Some(JsonNode::Arr(ab)) => match obj_lookup(fields@, "sentence_starters"@) {
                Some(JsonNode::Arr(ss)) => match obj_lookup(fields@, "collocations"@) {
                    Some(JsonNode::Arr(co)) => match colloc_pairs(co@) {
                        Some(ps) => match obj_lookup(fields@, "ortho_context"@) {
                            Some(JsonNode::Obj(oc)) => Some(
                                LoadModel {
                                    abbrevs: str_elems(ab@),
                                    pairs: ps,
                                    starters: str_elems(ss@),
                                    ortho: ortho_entries(oc@),
                                },
                            ),
                            _ => None,
                        },
                        None => None,
                    },
                    _ => None,
                },
                _ => None,
            },
            _ => None,
        },
        _ => None,
    }
}

/// A store loaded from a node carries exactly the memberships the
/// document describes.
pub open spec fn load_matches(r: Option<TrainingData>, m: Option<LoadModel>) -> bool {
    match (r, m) {
        (Some(d), Some(lm)) => {
            &&& d.wf()
            &&& d.abbrevs() == lm.abbrevs
            &&& d.pairs() == lm.pairs
            &&& d.starters() == lm.starters
            &&& d.ortho() == lm.ortho
        },
        (None, None) => true,
        _ => false,
    }
}

/// One malformed collocation entry fails the whole array.
proof fn lemma_colloc_bad(s: Seq<JsonNode>, j: int)
    requires
        0 <= j < s.len(),
        colloc_elem(s[j]) is Bad,
    ensures
        colloc_pairs(s) == None::<Set<(Seq<char>, Seq<char>)>>,
    decreases s.len(),
{
    if j == s.len() - 1 {
    } else {
        assert(s.drop_last()[j] == s[j]);
        lemma_colloc_bad(s.drop_last(), j);
    }
}

/// The first field with the given key decides the lookup.
proof fn lemma_obj_lookup_skip(fields: Seq<(String, JsonNode)>, key: Seq<char>, i: int)
    requires
        0 <= i <= fields.len(),
        forall|j: int| 0 <= j < i ==> (#[trigger] fields[j]).0@ != key,
    ensures
        obj_lookup(fields, key) == obj_lookup(fields.skip(i), key),
    decreases i,
{
    if i > 0 {
        lemma_obj_lookup_skip(fields, key, i - 1);
        let tail = fields.skip(i - 1);
        assert(tail.len() == fields.len() - i + 1);
        assert(tail[0] == fields[i - 1]);
        assert((fields[i - 1]).0@ != key);
        assert(tail.drop_first() =~= fields.skip(i));
        assert(obj_lookup(tail, key) == obj_lookup(fields.skip(i), key));
    } else {
        assert(fields.skip(0) =~= fields);
    }
}

/// Finds the value of a field by key, scanning in storage order.
fn obj_get<'x>(fields: &'x Vec<(String, JsonNode)>, key: &str) -> (r: Option<&'x JsonNode>)
    ensures
        match r {
            Some(n) => obj_lookup(fields@, key@) == Some(*n),
            None => obj_lookup(fields@, key@) == None::<JsonNode>,
        },
{
    let n = fields.len();
    let mut i: usize = 0;
    while i < n
        invariant
            n == fields@.len(),
            0 <= i <= n,
            forall|j: int| 0 <= j < i ==> (#[trigger] fields@[j]).0@ != key@,
        decreases n - i,
    {
        if fields[i].0.as_str().eq(key) {
            proof {
                lemma_obj_lookup_skip(fields@, key@, i as int);
                let tail = fields@.skip(i as int);
                assert(tail[0] == fields@[i as int]);
            }
            return Some(&fields[i].1);
        }
        i += 1;
    }
    proof {
        lemma_obj_lookup_skip(fields@, key@, n as int);
        assert(fields@.skip(n as int).len() == 0);
    }
    None
}

/// Reconstructs a store from a parsed document, enforcing the expected
/// shape of every field and failing atomically otherwise.
#[verifier::loop_isolation(false)]
pub fn from_json(node: &JsonNode) -> (r: Option<TrainingData>)
    ensures
        load_matches(r, spec_load(*node)),
{
    let fields = match node {
        JsonNode::Obj(fields) => fields,
        _ => {
            return None;
        },
    };
    let ab = match obj_get(fields, "abbrev_types") {
        Some(JsonNode::Arr(v)) => v,
        _ => {
            return None;
        },
    };
    let ss = match obj_get(fields, "sentence_starters") {
        Some(JsonNode::Arr(v)) => v,
        _ => {
            return None;
        },
    };
    let co = match obj_get(fields, "collocations") {
        Some(JsonNode::Arr(v)) => v,
        _ => {
            return None;
        },
    };
    let oc = match obj_get(fields, "ortho_context") {
        Some(JsonNode::Obj(v)) => v,
        _ => {
            return None;
        },
    };
    proof {
        assert(*node == JsonNode::Obj(*fields));
        assert(obj_lookup(fields@, "abbrev_types"@) == Some(JsonNode::Arr(*ab)));
        assert(obj_lookup(fields@, "sentence_starters"@) == Some(JsonNode::Arr(*ss)));
        assert(obj_lookup(fields@, "collocations"@) == Some(JsonNode::Arr(*co)));
        assert(obj_lookup(fields@, "ortho_context"@) == Some(JsonNode::Obj(*oc)));
    }
    let mut data = TrainingData::new();

    let na = ab.len();
    let mut i: usize = 0;
    while i < na
        invariant
            na == ab@.len(),
            0 <= i <= na,
            data.wf(),
            data.abbrevs() == str_elems(ab@.take(i as int)),
            data.pairs() == Set::<(Seq<char>, Seq<char>)>::empty(),
            data.starters() == Set::<Seq<char>>::empty(),
            data.ortho() == Map::<Seq<char>, u8>::empty(),
        decreases na - i,
    {
        proof {
            assert(ab@.take(i + 1).drop_last() =~= ab@.take(i as int));
            assert(ab@.take(i + 1).last() == ab@[i as int]);
        }
        match &ab[i] {
            JsonNode::Str(t) => {
                data.insert_abbrev(t.as_str());
            },
            _ => {
                proof {
                    assert(data.abbrevs() =~= str_elems(ab@.take(i + 1)));
                }
            },
        }
        i += 1;
    }
    proof {
        assert(ab@.take(na as int) =~= ab@);
    }

    let ns = ss.len();
    let mut i: usize = 0;
    while i < ns
        invariant
            ns == ss@.len(),
            0 <= i <= ns,
            data.wf(),
            data.abbrevs() == str_elems(ab@),
            data.starters() == str_elems(ss@.take(i as int)),
            data.pairs() == Set::<(Seq<char>, Seq<char>)>::empty(),
            data.ortho() == Map::<Seq<char>, u8>::empty(),
        decreases ns - i,
    {
        proof {
            assert(ss@.take(i + 1).drop_last() =~= ss@.take(i as int));
            assert(ss@.take(i + 1).last() == ss@[i as int]);
        }
        match &ss[i] {
            JsonNode::Str(t) => {
                data.insert_sentence_starter(t.as_str());
            },
            _ => {
                proof {
                    assert(data.starters() =~= str_elems(ss@.take(i + 1)));
                }
            },
        }
        i += 1;
    }
    proof {
        assert(ss@.take(ns as int) =~= ss@);
    }

    let nc = co.len();
    let mut i: usize = 0;
    while i < nc
        invariant
            nc == co@.len(),
            0 <= i <= nc,
            data.wf(),
            data.abbrevs() == str_elems(ab@),
            data.starters() == str_elems(ss@),
            colloc_pairs(co@.take(i as int)) == Some(data.pairs()),
            data.pairs().len() <= i,
            data.pairs().finite(),
            data.ortho() == Map::<Seq<char>, u8>::empty(),
        decreases nc - i,
    {
        proof {
            assert(co@.take(i + 1).drop_last() =~= co@.take(i as int));
            assert(co@.take(i + 1).last() == co@[i as int]);
        }
        match &co[i] {
            JsonNode::Arr(inner) => {
                let m = inner.len();
                if m < 2 {
                    proof {
                        lemma_colloc_bad(co@, i as int);
                    }
                    return None;
                }
                match (&inner[m - 2], &inner[m - 1]) {
                    (JsonNode::Str(l), JsonNode::Str(rt)) => {
                        proof {
                            assert(colloc_elem(co@[i as int]) == CollocElem::Pair(l@, rt@));
                        }
                        data.insert_collocation(l.as_str(), rt.as_str());
                    },
                    _ => {
                        proof {
                            assert(colloc_elem(co@[i as int]) is Bad);
                            lemma_colloc_bad(co@, i as int);
                        }
                        return None;
                    },
                }
            },
            _ => {
                proof {
                    assert(colloc_elem(co@[i as int]) is Bad);
                    lemma_colloc_bad(co@, i as int);
                }
                return None;
            },
        }
        i += 1;
    }
    proof {
        assert(co@.take(nc as int) =~= co@);
    }

    let no = oc.len();
    let mut i: usize = 0;
    while i < no
        invariant
            no == oc@.len(),
            0 <= i <= no,
            data.wf(),
            data.abbrevs() == str_elems(ab@),
            data.starters() == str_elems(ss@),
            colloc_pairs(co@) == Some(data.pairs()),
            data.ortho() == ortho_entries(oc@.take(i as int)),
        decreases no - i,
    {
        proof {
            assert(oc@.take(i + 1).drop_last() =~= oc@.take(i as int));
            assert(oc@.take(i + 1).last() == oc@[i as int]);
        }
        match &oc[i].1 {
            JsonNode::UInt(u) => {
                let v: u8 = (*u % 256) as u8;
                data.put_orthographic_context(oc[i].0.as_str(), v);
            },
            _ => {
                proof {
                    assert(data.ortho() =~= ortho_entries(oc@.take(i + 1)));
                }
            },
        }
        i += 1;
    }
    proof {
        assert(oc@.take(no as int) =~= oc@);
    }

    Some(data)
}

/// Any document without an `ortho_context` field fails to load, even
/// when every other field is present and well-formed.
pub proof fn lemma_missing_ortho_context_fails(n: JsonNode)
    requires
        n is Obj,
        obj_lookup(n->Obj_0@, "ortho_context"@) == None::<JsonNode>,
    ensures
        spec_load(n) == None::<LoadModel>,
{
}

/// Appending one element extends the element set by it.
proof fn lemma_to_set_push<A>(s: Seq<A>, x: A)
    ensures
        (s.push(x)).to_set() == s.to_set().insert(x),
{
    assert forall|y: A| (s.push(x)).to_set().contains(y) <==> s.to_set().insert(x).contains(
        y,
    ) by {
        if (s.push(x)).contains(y) {
            let i = choose|i: int| 0 <= i < s.push(x).len() && s.push(x)[i] == y;
            if i < s.len() {
                assert(s[i] == y);
            }
        }
        if s.contains(y) {
            let i = choose|i: int| 0 <= i < s.len() && s[i] == y;
            assert(s.push(x)[i] == y);
        }
        if y == x {
            assert(s.push(x)[s.len() as int] == y);
        }
    }
    assert((s.push(x)).to_set() =~= s.to_set().insert(x));
}

/// Serializes a store into the document shape the loading protocol
/// reads. Loading the produced document yields exactly this store's
/// membership in all four containers, which makes the round trip
/// through serialization and deserialization lossless.
#[verifier::loop_isolation(false)]
pub fn to_json(data: &TrainingData) -> (r: JsonNode)
    requires
        data.wf(),
    ensures
        spec_load(r) matches Some(m) && m.abbrevs == data.abbrevs() && m.pairs == data.pairs()
            && m.starters == data.starters() && m.ortho == data.ortho(),
{
    let abs = data.abbrev_store();
    let na = abs.seq_len();
    let mut ab_vec: Vec<JsonNode> = Vec::new();
    let mut i: usize = 0;
    while i < na
        invariant
            0 <= i <= na,
            ab_vec@.len() == i,
            str_elems(ab_vec@) == abs.strs().take(i as int).to_set(),
        decreases na - i,
    {
        let ghost prev = ab_vec@;
        ab_vec.push(JsonNode::Str(abs.at(i).clone()));
        proof {
            assert(ab_vec@.drop_last() =~= prev);
            assert(abs.strs().take(i + 1) =~= abs.strs().take(i as int).push(
                abs.strs()[i as int],
            ));
            lemma_to_set_push(abs.strs().take(i as int), abs.strs()[i as int]);
            assert(str_elems(ab_vec@) =~= abs.strs().take(i + 1).to_set());
        }
        i += 1;
    }
    proof {
        assert(abs.strs().take(na as int) =~= abs.strs());
    }

    let sts = data.starter_store();
    let ns = sts.seq_len();
    let mut ss_vec: Vec<JsonNode> = Vec::new();
    let mut i: usize = 0;
    while i < ns
        invariant
            0 <= i <= ns,
            ss_vec@.len() == i,
            str_elems(ss_vec@) == sts.strs().take(i as int).to_set(),
        decreases ns - i,
    {
        let ghost prev = ss_vec@;
        ss_vec.push(JsonNode::Str(sts.at(i).clone()));
        proof {
            assert(ss_vec@.drop_last() =~= prev);
            assert(sts.strs().take(i + 1) =~= sts.strs().take(i as int).push(
                sts.strs()[i as int],
            ));
            lemma_to_set_push(sts.strs().take(i as int), sts.strs()[i as int]);
            assert(str_elems(ss_vec@) =~= sts.strs().take(i + 1).to_set());
        }
        i += 1;
    }
    proof {
        assert(sts.strs().take(ns as int) =~= sts.strs());
    }

    let cm = data.colloc_store();
    let total = cm.pair_count();
    let mut it = cm.iter();
    let mut co_vec: Vec<JsonNode> = Vec::new();
    let mut k: usize = 0;
    while k < total
        invariant
            0 <= k <= total,
            it.wf(),
            it.stream() == cm.flat(),
            it.pos() == k,
            co_vec@.len() == k,
            colloc_pairs(co_vec@) == Some(it.stream().take(k as int).to_set()),
        decreases total - k,
    {
        let step = it.next();
        match step {
            Some((l, rt)) => {
                let ghost prev = co_vec@;
                let mut inner: Vec<JsonNode> = Vec::new();
                inner.push(JsonNode::Str(l.to_string()));
                inner.push(JsonNode::Str(rt.to_string()));
                co_vec.push(JsonNode::Arr(inner));
                proof {
                    assert(co_vec@.drop_last() =~= prev);
                    assert(colloc_elem(co_vec@.last()) == CollocElem::Pair(l@, rt@));
                    assert(it.stream()[k as int] == (l@, rt@));
                    assert(it.stream().take(k + 1) =~= it.stream().take(k as int).push(
                        it.stream()[k as int],
                    ));
                    lemma_to_set_push(it.stream().take(k as int), it.stream()[k as int]);
                }
            },
            None => {
                proof {
                    assert(false);
                }
            },
        }
        k += 1;
    }
    proof {
        assert(it.stream().take(total as int) =~= it.stream());
        assert(colloc_pairs(co_vec@) == Some(cm.pairs()));
    }

    let om = data.ortho_store();
    let entries = om.to_vec();
    let ne = entries.len();
    let mut oc_vec: Vec<(String, JsonNode)> = Vec::new();
    let mut j: usize = 0;
    while j < ne
        invariant
            0 <= j <= ne,
            oc_vec@.len() == j,
            forall|x: Seq<char>| #[trigger]
                ortho_entries(oc_vec@).dom().contains(x) <==> exists|t: int|
                    0 <= t < j && (#[trigger] entries@[t]).0@ == x,
            forall|x: Seq<char>| #[trigger]
                ortho_entries(oc_vec@).dom().contains(x) ==> om.view_map().dom().contains(x)
                    && ortho_entries(oc_vec@)[x] == om.view_map()[x],
        decreases ne - j,
    {
        let ghost prev = oc_vec@;
        let tok = entries[j].0.clone();
        let v = entries[j].1;
        oc_vec.push((tok, JsonNode::UInt(v as u64)));
        proof {
            assert(oc_vec@.drop_last() =~= prev);
            assert(oc_vec@.last().0@ == entries@[j as int].0@);
            assert(((v as u64) % 256) as u8 == v);
            assert(ortho_entries(oc_vec@) == ortho_entries(prev).insert(entries@[j as int].0@, v));
            assert forall|x: Seq<char>| #[trigger]
                ortho_entries(oc_vec@).dom().contains(x) implies om.view_map().dom().contains(x)
                && ortho_entries(oc_vec@)[x] == om.view_map()[x] by {
                if x == entries@[j as int].0@ {
                    assert(om.view_map()[x] == entries@[j as int].1);
                } else {
                    assert(ortho_entries(prev).dom().contains(x));
                }
            }
        }
        j += 1;
    }
    proof {
        assert(ortho_entries(oc_vec@) =~= om.view_map()) by {
            assert forall|x: Seq<char>| #[trigger]
                om.view_map().dom().contains(x) implies ortho_entries(oc_vec@).dom().contains(
                x,
            ) by {
                let t = choose|t: int| 0 <= t < entries@.len() && (#[trigger] entries@[t]).0@ == x;
                assert(0 <= t < ne && entries@[t].0@ == x);
            }
        }
    }

    let mut fields: Vec<(String, JsonNode)> = Vec::new();
    fields.push(("abbrev_types".to_string(), JsonNode::Arr(ab_vec)));
    fields.push(("sentence_starters".to_string(), JsonNode::Arr(ss_vec)));
    fields.push(("collocations".to_string(), JsonNode::Arr(co_vec)));
    fields.push(("ortho_context".to_string(), JsonNode::Obj(oc_vec)));
    let r = JsonNode::Obj(fields);
    proof {
        reveal_strlit("abbrev_types");
        reveal_strlit("sentence_starters");
        reveal_strlit("collocations");
        reveal_strlit("ortho_context");
        let s = fields@;
        let s1 = s.drop_first();
        let s2 = s1.drop_first();
        let s3 = s2.drop_first();
        assert(s.len() == 4 && s1.len() == 3 && s2.len() == 2 && s3.len() == 1);
        assert(s1[0] == s[1] && s2[0] == s[2] && s3[0] == s[3]);
        assert("abbrev_types"@ != "collocations"@) by {
            assert(("abbrev_types"@)[0] == 'a');
            assert(("collocations"@)[0] == 'c');
        }
        assert(s[0].0@ == "abbrev_types"@);
        assert(s[1].0@ == "sentence_starters"@);
        assert(s[2].0@ == "collocations"@);
        assert(s[3].0@ == "ortho_context"@);
        assert(obj_lookup(s, "abbrev_types"@) == Some(s[0].1));
        assert(obj_lookup(s, "sentence_starters"@) == obj_lookup(s1, "sentence_starters"@));
        assert(obj_lookup(s1, "sentence_starters"@) == Some(s[1].1));
        assert(obj_lookup(s, "collocations"@) == obj_lookup(s1, "collocations"@));
        assert(obj_lookup(s1, "collocations"@) == obj_lookup(s2, "collocations"@));
        assert(obj_lookup(s2, "collocations"@) == Some(s[2].1));
        assert(obj_lookup(s, "ortho_context"@) == obj_lookup(s1, "ortho_context"@));
        assert(obj_lookup(s1, "ortho_context"@) == obj_lookup(s2, "ortho_context"@));
        assert(obj_lookup(s2, "ortho_context"@) == obj_lookup(s3, "ortho_context"@));
        assert(obj_lookup(s3, "ortho_context"@) == Some(s[3].1));
    }
    r
}

#[verifier::external_type_specification]
#[verifier::external_body]
pub struct ExJson(Json);

/// Carries the outside parser's tree over into the library's node
/// type, one variant to one variant. A number is kept only as whether
/// it is representable as a non-negative integer, which is all the
/// loading protocol reads of it.
#[verifier::external_body]
fn node_of(j: Json) -> (r: JsonNode) {
    match j {
        Json::Null => JsonNode::Null,
        Json::Boolean(b) => JsonNode::Bool(b),
        Json::U64(u) => JsonNode::UInt(u),
        Json::I64(_) => JsonNode::OtherNum,
        Json::F64(_) => JsonNode::OtherNum,
        Json::String(s) => JsonNode::Str(s),
        Json::Array(a) => JsonNode::Arr(a.into_iter().map(node_of).collect()),
        Json::Object(m) => JsonNode::Obj(m.into_iter().map(|(k, v)| (k, node_of(v))).collect()),
    }
}

/// What parsing a text yields: one node tree for a well-formed JSON
/// document, nothing otherwise. The result is a function of the text
/// alone.
pub uninterp spec fn parsed_json(s: Seq<char>) -> Option<JsonNode>;

/// Relies on rustc_serialize's `Json::from_str`: parsing is
/// deterministic in the text alone, succeeds exactly on well-formed
/// JSON, and the tree is carried over by `node_of` variant by variant.
#[verifier::external_body]
fn parse_json(s: &str) -> (r: Option<JsonNode>)
    ensures
        r == parsed_json(s@),
{
    match Json::from_str(s) {
        Ok(j) => Some(node_of(j)),
        Err(_) => None,
    }
}

/// What loading a text yields: the membership its document describes,
/// or nothing when the text or any field is malformed.
pub open spec fn spec_from_str(s: Seq<char>) -> Option<LoadModel> {
    match parsed_json(s) {
        Some(n) => spec_load(n),
        None => None,
    }
}

impl TrainingData {
    /// Deserializes one JSON document into a freshly populated store;
    /// any malformed text or field yields nothing, never a partial
    /// store.
    pub fn from_str(s: &str) -> (r: Option<TrainingData>)
        ensures
            load_matches(r, spec_from_str(s@)),
    {
        match parse_json(s) {
            Some(node) => from_json(&node),
            None => None,
        }
    }
}

} // verus!
