//! Label keys and label maps.
//!
//! A discovery entry carries a map from label keys to label values. Only
//! keys shaped like identifiers (a letter or underscore, then letters,
//! digits or underscores) are acceptable; the rest are dropped before an
//! entry is emitted.
//!
//! A [`LabelMap`] is an ordered association list with unique keys. The
//! order is the insertion order, which keeps serialization deterministic
//! across cycles for the same input.

use vstd::prelude::*;
use crate::text::str_eq;

verus! {

/// A character that may open a label key.
pub open spec fn is_ident_start(c: char) -> bool {
    (97 <= c as u32 && c as u32 <= 122)  // 'a'..='z'
    || (65 <= c as u32 && c as u32 <= 90)  // 'A'..='Z'
    || c == '_'
}

/// A character that may continue a label key.
pub open spec fn is_ident_char(c: char) -> bool {
    is_ident_start(c) || (48 <= c as u32 && c as u32 <= 57)  // '0'..='9'
}

/// A label key is valid when it is non-empty, opens with a letter or an
/// underscore, and continues with letters, digits or underscores only.
pub open spec fn is_valid_key(s: Seq<char>) -> bool {
    &&& s.len() > 0
    &&& is_ident_start(s[0])
    &&& forall|i: int| 1 <= i < s.len() ==> is_ident_char(#[trigger] s[i])
}

/// Decides whether `key` is an acceptable label key: it must fully match
/// the identifier pattern (a letter or underscore, then zero or more
/// letters, digits or underscores).
pub fn validate(key: &str) -> (r: bool)
    ensures
        r == is_valid_key(key@),
{
    let n = key.unicode_len();
    if n == 0 {
        return false;
    }
    let first = key.get_char(0);
    let u: u32 = first as u32;
    if !((97 <= u && u <= 122) || (65 <= u && u <= 90) || first == '_') {
        return false;
    }
    let mut i: usize = 1;
    while i < n
        invariant
            1 <= i <= n,
            n == key@.len(),
            is_ident_start(key@[0]),
            forall|j: int| 1 <= j < i ==> is_ident_char(#[trigger] key@[j]),
        decreases n - i,
    {
        let c = key.get_char(i);
        let u: u32 = c as u32;
        if !((97 <= u && u <= 122) || (65 <= u && u <= 90) || c == '_' || (48 <= u && u <= 57)) {
            return false;
        }
        i += 1;
    }
    true
}

/// The mathematical shape of a label map: a sequence of key/value pairs.
pub type LabelSeq = Seq<(Seq<char>, Seq<char>)>;

/// The view of a sequence of owned string pairs.
pub open spec fn pairs_view(s: Seq<(String, String)>) -> LabelSeq {
    Seq::new(s.len(), |i: int| (s[i].0@, s[i].1@))
}

/// All keys of the sequence are distinct.
pub open spec fn wf_labels(m: LabelSeq) -> bool {
    forall|i: int, j: int| 0 <= i < j < m.len() ==> (#[trigger] m[i]).0 != (#[trigger] m[j]).0
}

/// The value bound to `k`: the value of the first pair whose key is `k`.
pub open spec fn spec_get(m: LabelSeq, k: Seq<char>) -> Option<Seq<char>>
    decreases m.len(),
{
    if m.len() == 0 {
        None
    } else if m[0].0 == k {
        Some(m[0].1)
    } else {
        spec_get(m.drop_first(), k)
    }
}

/// `spec_get` finds nothing exactly when no pair carries the key.
pub proof fn lemma_spec_get_none(m: LabelSeq, k: Seq<char>)
    ensures
        (spec_get(m, k) is None) <==> (forall|i: int|
            0 <= i < m.len() ==> (#[trigger] m[i]).0 != k),
    decreases m.len(),
{
    if m.len() > 0 {
        lemma_spec_get_none(m.drop_first(), k);
        let df = m.drop_first();
        if m[0].0 == k {
            assert(0 <= 0 < m.len() && m[0].0 == k);
        } else {
            if spec_get(m, k) is None {
                assert forall|i: int| 0 <= i < m.len() implies (#[trigger] m[i]).0 != k by {
                    if i > 0 {
                        assert(df[i - 1] == m[i]);
                        assert(df[i - 1].0 != k);
                    }
                }
            }
            if forall|i: int| 0 <= i < m.len() ==> (#[trigger] m[i]).0 != k {
                assert forall|i: int| 0 <= i < df.len() implies (#[trigger] df[i]).0 != k by {
                    assert(df[i] == m[i + 1]);
                    assert(m[i + 1].0 != k);
                }
            }
        }
    }
}

/// `spec_get` returns the value at the first index whose key matches.
pub proof fn lemma_spec_get_at(m: LabelSeq, k: Seq<char>, i: int)
    requires
        0 <= i < m.len(),
        m[i].0 == k,
        forall|j: int| 0 <= j < i ==> (#[trigger] m[j]).0 != k,
    ensures
        spec_get(m, k) == Some(m[i].1),
    decreases i,
{
    if i > 0 {
        lemma_spec_get_at(m.drop_first(), k, i - 1);
        assert(forall|j: int|
            0 <= j < m.drop_first().len() ==> #[trigger] m.drop_first()[j] == m[j + 1]);
    }
}

/// Inserting `k = v`: the first pair with key `k` is replaced in place;
/// with no such pair, the new pair is appended.
pub open spec fn spec_insert(m: LabelSeq, k: Seq<char>, v: Seq<char>) -> LabelSeq
    decreases m.len(),
{
    if m.len() == 0 {
        seq![(k, v)]
    } else if m[0].0 == k {
        seq![(k, v)] + m.drop_first()
    } else {
        seq![m[0]] + spec_insert(m.drop_first(), k, v)
    }
}

proof fn lemma_spec_insert_at(m: LabelSeq, k: Seq<char>, v: Seq<char>, i: int)
    requires
        0 <= i < m.len(),
        m[i].0 == k,
        forall|j: int| 0 <= j < i ==> (#[trigger] m[j]).0 != k,
    ensures
        spec_insert(m, k, v) == m.update(i, (k, v)),
    decreases i,
{
    if i == 0 {
        assert(spec_insert(m, k, v) =~= m.update(0, (k, v)));
    } else {
        assert(forall|j: int|
            0 <= j < m.drop_first().len() ==> #[trigger] m.drop_first()[j] == m[j + 1]);
        lemma_spec_insert_at(m.drop_first(), k, v, i - 1);
        assert(seq![m[0]] + m.drop_first().update(i - 1, (k, v)) =~= m.update(i, (k, v)));
    }
}

proof fn lemma_spec_insert_absent(m: LabelSeq, k: Seq<char>, v: Seq<char>)
    requires
        forall|j: int| 0 <= j < m.len() ==> (#[trigger] m[j]).0 != k,
    ensures
        spec_insert(m, k, v) == m.push((k, v)),
    decreases m.len(),
{
    if m.len() == 0 {
        assert(spec_insert(m, k, v) =~= m.push((k, v)));
    } else {
        assert(forall|j: int|
            0 <= j < m.drop_first().len() ==> #[trigger] m.drop_first()[j] == m[j + 1]);
        lemma_spec_insert_absent(m.drop_first(), k, v);
        assert(seq![m[0]] + m.drop_first().push((k, v)) =~= m.push((k, v)));
    }
}

/// Each pair of `base`, its value replaced where `over` binds its key.
pub open spec fn spec_overlay_base(base: LabelSeq, over: LabelSeq) -> LabelSeq
    decreases base.len(),
{
    if base.len() == 0 {
        Seq::empty()
    } else {
        spec_overlay_base(base.drop_last(), over).push(
            match spec_get(over, base.last().0) {
                Some(v) => (base.last().0, v),
                None => base.last(),
            },
        )
    }
}

/// The pairs of `over` whose keys `base` does not bind, in order.
pub open spec fn spec_new_pairs(base: LabelSeq, over: LabelSeq) -> LabelSeq
    decreases over.len(),
{
    if over.len() == 0 {
        Seq::empty()
    } else {
        let rest = spec_new_pairs(base, over.drop_last());
        if spec_get(base, over.last().0) is None {
            rest.push(over.last())
        } else {
            rest
        }
    }
}

/// Merging `over` onto `base`: `over` wins on key collisions, keys keep
/// the position of their first appearance.
pub open spec fn spec_overlay(base: LabelSeq, over: LabelSeq) -> LabelSeq {
    spec_overlay_base(base, over) + spec_new_pairs(base, over)
}

proof fn lemma_overlay_base_keys(base: LabelSeq, over: LabelSeq)
    ensures
        spec_overlay_base(base, over).len() == base.len(),
        forall|i: int|
            0 <= i < base.len() ==> (#[trigger] spec_overlay_base(base, over)[i]).0 == base[i].0,
    decreases base.len(),
{
    if base.len() > 0 {
        lemma_overlay_base_keys(base.drop_last(), over);
    }
}

proof fn lemma_new_pairs_keys(base: LabelSeq, over: LabelSeq)
    ensures
        forall|j: int|
            0 <= j < spec_new_pairs(base, over).len() ==> ((exists|l: int|
                0 <= l < over.len() && (#[trigger] spec_new_pairs(base, over)[j]) == over[l])
                && spec_get(base, spec_new_pairs(base, over)[j].0) is None),
    decreases over.len(),
{
    if over.len() > 0 {
        lemma_new_pairs_keys(base, over.drop_last());
        let n = spec_new_pairs(base, over);
        let nr = spec_new_pairs(base, over.drop_last());
        assert forall|j: int| 0 <= j < n.len() implies ((exists|l: int|
            0 <= l < over.len() && (#[trigger] n[j]) == over[l]) && spec_get(
            base,
            n[j].0,
        ) is None) by {
            if spec_get(base, over.last().0) is None && j == n.len() - 1 {
                assert(0 <= over.len() - 1 < over.len() && n[j] == over[over.len() - 1]);
            } else {
                assert(n[j] == nr[j]);
                let l = choose|l: int|
                    0 <= l < over.drop_last().len() && nr[j] == over.drop_last()[l];
                assert(over.drop_last()[l] == over[l]);
                assert(0 <= l < over.len() && n[j] == over[l]);
            }
        }
    }
}

/// The pairs of valid keys, in order.
pub open spec fn spec_filter_valid(m: LabelSeq) -> LabelSeq
    decreases m.len(),
{
    if m.len() == 0 {
        Seq::empty()
    } else {
        let rest = spec_filter_valid(m.drop_last());
        if is_valid_key(m.last().0) {
            rest.push(m.last())
        } else {
            rest
        }
    }
}

/// The keys that validation drops, in order.
pub open spec fn spec_dropped_keys(m: LabelSeq) -> Seq<Seq<char>>
    decreases m.len(),
{
    if m.len() == 0 {
        Seq::empty()
    } else {
        let rest = spec_dropped_keys(m.drop_last());
        if is_valid_key(m.last().0) {
            rest
        } else {
            rest.push(m.last().0)
        }
    }
}

/// An ordered map from label keys to label values with unique keys.
#[derive(Debug)]
pub struct LabelMap {
    pairs: Vec<(String, String)>,
}

impl View for LabelMap {
    type V = LabelSeq;

    closed spec fn view(&self) -> LabelSeq {
        pairs_view(self.pairs@)
    }
}

impl LabelMap {
    #[verifier::type_invariant]
    spec fn inv(self) -> bool {
        wf_labels(self@)
    }

    /// The empty map.
    pub fn new() -> (r: LabelMap)
        ensures
            r@ == Seq::<(Seq<char>, Seq<char>)>::empty(),
    {
        let r = LabelMap { pairs: Vec::new() };
        proof {
            assert(r@ =~= Seq::<(Seq<char>, Seq<char>)>::empty());
        }
        r
    }

    /// The number of pairs held.
    pub fn len(&self) -> (r: usize)
        ensures
            r == self@.len(),
    {
        self.pairs.len()
    }

    /// The pairs held, in order.
    pub fn as_pairs(&self) -> (r: &Vec<(String, String)>)
        ensures
            pairs_view(r@) == self@,
    {
        &self.pairs
    }

    /// The pair at position `i`.
    pub fn pair_at(&self, i: usize) -> (p: &(String, String))
        requires
            i < self@.len(),
        ensures
            p.0@ == self@[i as int].0,
            p.1@ == self@[i as int].1,
    {
        &self.pairs[i]
    }

    /// The value bound to `key`, when one is.
    pub fn get(&self, key: &str) -> (r: Option<&String>)
        ensures
            match r {
                Some(v) => spec_get(self@, key@) == Some(v@),
                None => spec_get(self@, key@) is None,
            },
    {
        let n = self.pairs.len();
        let mut i: usize = 0;
        while i < n
            invariant
                0 <= i <= n,
                n == self@.len(),
                forall|j: int| 0 <= j < i ==> (#[trigger] self@[j]).0 != key@,
            decreases n - i,
        {
            if str_eq(self.pairs[i].0.as_str(), key) {
                proof {
                    lemma_spec_get_at(self@, key@, i as int);
                }
                return Some(&self.pairs[i].1);
            }
            i += 1;
        }
        proof {
            lemma_spec_get_none(self@, key@);
        }
        None
    }

    /// Binds `key` to `value`: replaces the value in place when the key is
    /// present, appends the pair when it is not.
    pub fn insert(&mut self, key: String, value: String)
        ensures
            final(self)@ == spec_insert(old(self)@, key@, value@),
    {
        proof {
            use_type_invariant(&*self);
        }
        let ghost m = old(self)@;
        let n = self.pairs.len();
        let mut idx: usize = n;
        let mut i: usize = 0;
        while i < n
            invariant
                0 <= i <= n,
                n == m.len(),
                m == self@,
                wf_labels(m),
                idx <= n,
                idx == n ==> forall|j: int| 0 <= j < i ==> (#[trigger] m[j]).0 != key@,
                idx < n ==> idx < i && m[idx as int].0 == key@ && forall|j: int|
                    0 <= j < idx ==> (#[trigger] m[j]).0 != key@,
            decreases n - i,
        {
            if idx == n && str_eq(self.pairs[i].0.as_str(), key.as_str()) {
                idx = i;
            }
            i += 1;
        }
        let mut v: Vec<(String, String)> = Vec::new();
        std::mem::swap(&mut v, &mut self.pairs);
        proof {
            assert(pairs_view(v@).len() == v@.len());
        }
        if idx < n {
            proof {
                lemma_spec_insert_at(m, key@, value@, idx as int);
            }
            v.remove(idx);
            v.insert(idx, (key, value));
            proof {
                assert(pairs_view(v@) =~~= m.update(idx as int, (key@, value@)));
                assert(wf_labels(pairs_view(v@)));
            }
        } else {
            proof {
                lemma_spec_insert_absent(m, key@, value@);
            }
            v.push((key, value));
            proof {
                assert(pairs_view(v@) =~~= m.push((key@, value@)));
                assert(wf_labels(pairs_view(v@)));
            }
        }
        self.pairs = v;
    }

    /// A copy of this map with the same pairs in the same order.
    pub fn duplicate(&self) -> (r: LabelMap)
        ensures
            r@ == self@,
    {
        proof {
            use_type_invariant(self);
        }
        let n = self.pairs.len();
        let mut v: Vec<(String, String)> = Vec::new();
        proof {
            assert(pairs_view(v@) =~~= self@.take(0));
        }
        let mut i: usize = 0;
        while i < n
            invariant
                0 <= i <= n,
                n == self@.len(),
                pairs_view(v@) == self@.take(i as int),
            decreases n - i,
        {
            proof {
                assert(pairs_view(v@).len() == v@.len());
            }
            let p0 = self.pairs[i].0.clone();
            let p1 = self.pairs[i].1.clone();
            v.push((p0, p1));
            proof {
                assert(pairs_view(v@) =~~= self@.take(i as int + 1));
            }
            i += 1;
        }
        let r = LabelMap { pairs: v };
        proof {
            assert(self@.take(n as int) =~~= self@);
            assert(r@ =~~= self@);
        }
        r
    }

    /// Merges `over` onto this map: values of `over` win on key collision,
    /// keys keep the position of their first appearance, and the new keys
    /// of `over` follow in their own order.
    pub fn overlay(&self, over: &LabelMap) -> (r: LabelMap)
        ensures
            r@ == spec_overlay(self@, over@),
    {
        proof {
            use_type_invariant(self);
            use_type_invariant(over);
        }
        let ghost base = self@;
        let ghost ov = over@;
        let nb = self.pairs.len();
        let mut v: Vec<(String, String)> = Vec::new();
        proof {
            assert(pairs_view(v@) =~~= spec_overlay_base(base.take(0), ov));
        }
        let mut i: usize = 0;
        while i < nb
            invariant
                0 <= i <= nb,
                nb == base.len(),
                base == self@,
                ov == over@,
                wf_labels(base),
                wf_labels(ov),
                pairs_view(v@) == spec_overlay_base(base.take(i as int), ov),
            decreases nb - i,
        {
            proof {
                assert(pairs_view(v@).len() == v@.len());
                assert(base.take(i as int + 1).drop_last() =~~= base.take(i as int));
                assert(base.take(i as int + 1).last() == base[i as int]);
            }
            let p = &self.pairs[i];
            match over.get(p.0.as_str()) {
                Some(nv) => v.push((p.0.clone(), nv.clone())),
                None => v.push((p.0.clone(), p.1.clone())),
            }
            proof {
                assert(pairs_view(v@) =~~= spec_overlay_base(base.take(i as int + 1), ov));
            }
            i += 1;
        }
        proof {
            assert(base.take(nb as int) =~~= base);
            lemma_overlay_base_keys(base, ov);
        }
        let no = over.pairs.len();
        proof {
            assert(pairs_view(v@) =~~= spec_overlay_base(base, ov) + spec_new_pairs(
                base,
                ov.take(0),
            ));
        }
        let mut j: usize = 0;
        while j < no
            invariant
                0 <= j <= no,
                no == ov.len(),
                base == self@,
                ov == over@,
                wf_labels(base),
                wf_labels(ov),
                pairs_view(v@) == spec_overlay_base(base, ov) + spec_new_pairs(base, ov.take(j as int)),
            decreases no - j,
        {
            proof {
                assert(pairs_view(v@).len() == v@.len());
                assert(ov.take(j as int + 1).drop_last() =~~= ov.take(j as int));
                assert(ov.take(j as int + 1).last() == ov[j as int]);
            }
            let q = &over.pairs[j];
            proof {
                assert(ov[j as int] == (q.0@, q.1@));
            }
            match self.get(q.0.as_str()) {
                None => {
                    v.push((q.0.clone(), q.1.clone()));
                    proof {
                        let a = spec_overlay_base(base, ov);
                        let b = spec_new_pairs(base, ov.take(j as int));
                        assert(spec_get(base, ov[j as int].0) is None);
                        assert(spec_new_pairs(base, ov.take(j as int + 1)) == b.push(
                            ov[j as int],
                        ));
                        assert(pairs_view(v@) =~~= (a + b).push(ov[j as int]));
                        assert((a + b).push(ov[j as int]) =~~= a + b.push(ov[j as int]));
                    }
                },
                Some(_) => {
                    proof {
                        assert(spec_get(base, ov[j as int].0) is Some);
                        assert(spec_new_pairs(base, ov.take(j as int + 1)) == spec_new_pairs(
                            base,
                            ov.take(j as int),
                        ));
                    }
                },
            }
            proof {
                assert(pairs_view(v@) =~~= spec_overlay_base(base, ov) + spec_new_pairs(
                    base,
                    ov.take(j as int + 1),
                ));
            }
            j += 1;
        }
        proof {
            assert(ov.take(no as int) =~~= ov);
            lemma_overlay_wf(base, ov);
            assert(pairs_view(v@) =~~= spec_overlay(base, ov));
            assert(wf_labels(pairs_view(v@)));
        }
        let r = LabelMap { pairs: v };
        r
    }
}

/// Merging two well-formed maps yields a well-formed map.
proof fn lemma_overlay_wf(base: LabelSeq, over: LabelSeq)
    requires
        wf_labels(base),
        wf_labels(over),
    ensures
        wf_labels(spec_overlay(base, over)),
{
    lemma_overlay_base_keys(base, over);
    lemma_new_pairs_keys(base, over);
    let r = spec_overlay(base, over);
    let b = spec_overlay_base(base, over);
    let n = spec_new_pairs(base, over);
    assert forall|i: int, j: int| 0 <= i < j < r.len() implies (#[trigger] r[i]).0 != (
    #[trigger] r[j]).0 by {
        if j < b.len() {
            // both keys come from base
            assert(r[i].0 == base[i].0);
            assert(r[j].0 == base[j].0);
        } else if i >= b.len() {
            // both pairs come from over, at distinct positions
            let pi = choose|l: int| 0 <= l < over.len() && n[i - b.len()] == over[l];
            let pj = choose|l: int| 0 <= l < over.len() && n[j - b.len()] == over[l];
            if n[i - b.len()].0 == n[j - b.len()].0 {
                // two pairs of over share a key, so they sit at one index;
                // but a well-formed map never repeats a pair's key
                assert(over[pi].0 == over[pj].0);
                assert(pi == pj);
                lemma_new_pairs_distinct(base, over, i - b.len(), j - b.len());
            }
        } else {
            // one key from base, one new key absent from base
            assert(r[i].0 == base[i].0);
            assert(spec_get(base, n[j - b.len()].0) is None);
            lemma_spec_get_none(base, n[j - b.len()].0);
        }
    }
}

/// Two positions of `spec_new_pairs` never hold the same pair of a
/// well-formed `over`.
proof fn lemma_new_pairs_distinct(base: LabelSeq, over: LabelSeq, i: int, j: int)
    requires
        wf_labels(over),
        0 <= i < j < spec_new_pairs(base, over).len(),
    ensures
        spec_new_pairs(base, over)[i].0 != spec_new_pairs(base, over)[j].0,
    decreases over.len(),
{
    if over.len() > 0 {
        let rest = spec_new_pairs(base, over.drop_last());
        if spec_get(base, over.last().0) is None && j == spec_new_pairs(base, over).len() - 1 {
            // the last pair is over.last(); position i comes from the rest
            lemma_new_pairs_keys(base, over.drop_last());
            let l = choose|l: int|
                0 <= l < over.drop_last().len() && rest[i] == over.drop_last()[l];
            assert(over.drop_last()[l] == over[l]);
        } else {
            lemma_new_pairs_distinct(base, over.drop_last(), i, j);
        }
    }
}

/// Splits a label map into the pairs with valid keys and the keys that
/// were dropped, preserving order on both sides.
pub fn filter_labels(labels: &LabelMap) -> (r: (LabelMap, Vec<String>))
    ensures
        r.0@ == spec_filter_valid(labels@),
        r.1.deep_view() == spec_dropped_keys(labels@),
{
    proof {
        use_type_invariant(labels);
    }
    let n = labels.len();
    let mut kept: Vec<(String, String)> = Vec::new();
    let mut dropped: Vec<String> = Vec::new();
    proof {
        assert(pairs_view(kept@) =~~= spec_filter_valid(labels@.take(0)));
        assert(dropped.deep_view() =~~= spec_dropped_keys(labels@.take(0)));
    }
    let mut i: usize = 0;
    while i < n
        invariant
            0 <= i <= n,
            n == labels@.len(),
            wf_labels(labels@),
            pairs_view(kept@) == spec_filter_valid(labels@.take(i as int)),
            dropped.deep_view() == spec_dropped_keys(labels@.take(i as int)),
        decreases n - i,
    {
        proof {
            assert(pairs_view(kept@).len() == kept@.len());
            assert(dropped.deep_view().len() == dropped@.len());
            assert(labels@.take(i as int + 1).drop_last() =~~= labels@.take(i as int));
            assert(labels@.take(i as int + 1).last() == labels@[i as int]);
        }
        let p = labels.pair_at(i);
        if validate(p.0.as_str()) {
            kept.push((p.0.clone(), p.1.clone()));
            proof {
                assert(pairs_view(kept@) =~~= spec_filter_valid(labels@.take(i as int + 1)));
            }
        } else {
            dropped.push(p.0.clone());
            proof {
                assert(dropped.deep_view() =~~= spec_dropped_keys(labels@.take(i as int + 1)));
            }
        }
        i += 1;
    }
    proof {
        assert(labels@.take(n as int) =~~= labels@);
        let f = pairs_view(kept@);
        assert forall|i1: int, j1: int| 0 <= i1 < j1 < f.len() implies (#[trigger] f[i1]).0 != (
        #[trigger] f[j1]).0 by {
            lemma_filter_valid_distinct(labels@, i1, j1);
        }
        assert(wf_labels(pairs_view(kept@)));
    }
    let out = LabelMap { pairs: kept };
    (out, dropped)
}

/// Two positions of `spec_filter_valid` never hold the same key of a
/// well-formed map.
proof fn lemma_filter_valid_distinct(m: LabelSeq, i: int, j: int)
    requires
        wf_labels(m),
        0 <= i < j < spec_filter_valid(m).len(),
    ensures
        spec_filter_valid(m)[i].0 != spec_filter_valid(m)[j].0,
    decreases m.len(),
{
    if m.len() > 0 {
        let rest = spec_filter_valid(m.drop_last());
        if is_valid_key(m.last().0) && j == spec_filter_valid(m).len() - 1 {
            lemma_filter_valid_keys(m.drop_last());
            let l = choose|l: int|
                0 <= l < m.drop_last().len() && rest[i] == m.drop_last()[l];
            assert(m.drop_last()[l] == m[l]);
        } else {
            lemma_filter_valid_distinct(m.drop_last(), i, j);
        }
    }
}

/// Each filtered pair comes from the original map.
proof fn lemma_filter_valid_keys(m: LabelSeq)
    ensures
        forall|j: int|
            0 <= j < spec_filter_valid(m).len() ==> exists|l: int|
                0 <= l < m.len() && (#[trigger] spec_filter_valid(m)[j]) == m[l],
    decreases m.len(),
{
    if m.len() > 0 {
        lemma_filter_valid_keys(m.drop_last());
        let f = spec_filter_valid(m);
        let fr = spec_filter_valid(m.drop_last());
        assert forall|j: int| 0 <= j < f.len() implies exists|l: int|
            0 <= l < m.len() && (#[trigger] f[j]) == m[l] by {
            if is_valid_key(m.last().0) && j == f.len() - 1 {
                assert(0 <= m.len() - 1 < m.len() && f[j] == m[m.len() - 1]);
            } else {
                assert(f[j] == fr[j]);
                let l = choose|l: int| 0 <= l < m.drop_last().len() && fr[j] == m.drop_last()[l];
                assert(m.drop_last()[l] == m[l]);
                assert(0 <= l < m.len() && f[j] == m[l]);
            }
        }
    }
}

} // verus!

