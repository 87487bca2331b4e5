//! An ordered key-value store: entries are kept strictly sorted by key, so that
//! a walk over the store meets the keys in ascending order, as a walk over the
//! canister's stable B-tree maps does.
use vstd::prelude::*;
use crate::text::{Rank, bytes_lt, bytes_rank, utf8_of, rank_text, lemma_bytes_lt_irreflexive,
    lemma_bytes_lt_asymmetric, lemma_bytes_lt_transitive, lemma_bytes_lt_total, lemma_utf8_injective};

verus! {

/// A key as the store sees it: a list of byte strings compared field by field.
pub type KeyFields = Seq<Seq<u8>>;

/// Strict lexicographic order on field lists.
pub open spec fn fields_lt(a: KeyFields, b: KeyFields) -> bool
    decreases a.len(),
{
    if a.len() == 0 {
        b.len() > 0
    } else if b.len() == 0 {
        false
    } else if bytes_lt(a[0], b[0]) {
        true
    } else if bytes_lt(b[0], a[0]) {
        false
    } else {
        fields_lt(a.drop_first(), b.drop_first())
    }
}

pub open spec fn fields_rank(a: KeyFields, b: KeyFields) -> Rank {
    if a == b {
        Rank::Same
    } else if fields_lt(a, b) {
        Rank::Below
    } else {
        Rank::Above
    }
}

pub proof fn lemma_fields_lt_irreflexive(a: KeyFields)
    ensures
        !fields_lt(a, a),
    decreases a.len(),
{
    if a.len() > 0 {
        lemma_bytes_lt_irreflexive(a[0]);
        lemma_fields_lt_irreflexive(a.drop_first());
    }
}

pub proof fn lemma_fields_lt_transitive(a: KeyFields, b: KeyFields, c: KeyFields)
    ensures
        fields_lt(a, b) && fields_lt(b, c) ==> fields_lt(a, c),
    decreases a.len(),
{
    if a.len() > 0 && b.len() > 0 && c.len() > 0 {
        lemma_bytes_lt_transitive(a[0], b[0], c[0]);
        lemma_bytes_lt_transitive(b[0], c[0], a[0]);
        lemma_bytes_lt_transitive(c[0], a[0], b[0]);
        lemma_bytes_lt_total(a[0], b[0]);
        lemma_bytes_lt_total(b[0], c[0]);
        lemma_bytes_lt_total(a[0], c[0]);
        lemma_bytes_lt_irreflexive(a[0]);
        lemma_bytes_lt_irreflexive(b[0]);
        lemma_fields_lt_transitive(a.drop_first(), b.drop_first(), c.drop_first());
    }
}

pub proof fn lemma_fields_lt_total(a: KeyFields, b: KeyFields)
    ensures
        a != b ==> fields_lt(a, b) || fields_lt(b, a),
        fields_lt(a, b) ==> !fields_lt(b, a),
        fields_lt(a, b) ==> a != b,
    decreases a.len(),
{
    lemma_fields_lt_irreflexive(a);
    if a.len() > 0 && b.len() > 0 {
        lemma_bytes_lt_total(a[0], b[0]);
        lemma_bytes_lt_asymmetric(a[0], b[0]);
        lemma_fields_lt_total(a.drop_first(), b.drop_first());
        if a[0] == b[0] && a.drop_first() == b.drop_first() {
            assert(a =~= seq![a[0]] + a.drop_first());
            assert(b =~= seq![b[0]] + b.drop_first());
        }
    } else if a.len() == 0 && b.len() == 0 {
        assert(a =~= b);
    }
}

/// A key type of the stores: its fields as byte strings, and an exec comparison.
pub trait MapKey: Sized {
    spec fn key_fields(&self) -> KeyFields;

    fn rank_key(&self, other: &Self) -> (r: Rank)
        ensures
            r == fields_rank(self.key_fields(), other.key_fields()),
    ;
}

pub proof fn lemma_single_field_rank(x: Seq<u8>, y: Seq<u8>)
    ensures
        fields_rank(seq![x], seq![y]) == bytes_rank(x, y),
{
    lemma_bytes_lt_total(x, y);
    lemma_bytes_lt_asymmetric(x, y);
    lemma_bytes_lt_irreflexive(x);
    let a = seq![x];
    let b = seq![y];
    assert(a.drop_first() =~= Seq::<Seq<u8>>::empty());
    assert(b.drop_first() =~= Seq::<Seq<u8>>::empty());
    if x == y {
        assert(a =~= b);
    } else {
        assert(a[0] != b[0]);
    }
}

impl MapKey for String {
    open spec fn key_fields(&self) -> KeyFields {
        seq![utf8_of(self@)]
    }

    fn rank_key(&self, other: &Self) -> (r: Rank) {
        let r = rank_text(self.as_str(), other.as_str());
        proof {
            lemma_single_field_rank(utf8_of(self@), utf8_of(other@));
        }
        r
    }
}

/// The key of a single string.
pub open spec fn text_key(s: Seq<char>) -> KeyFields {
    seq![utf8_of(s)]
}

/// Compares two keys made of one string each.
pub fn rank_single(a: &str, b: &str) -> (r: Rank)
    ensures
        r == fields_rank(text_key(a@), text_key(b@)),
{
    let r = rank_text(a, b);
    proof {
        lemma_single_field_rank(utf8_of(a@), utf8_of(b@));
    }
    r
}

/// Distinct strings give distinct keys.
pub proof fn lemma_text_key_injective(a: Seq<char>, b: Seq<char>)
    ensures
        text_key(a) == text_key(b) ==> a == b,
{
    if text_key(a) == text_key(b) {
        assert(text_key(a)[0] == text_key(b)[0]);
        lemma_utf8_injective(a, b);
    }
}

/// The key of a pair of strings, ordered by the first, then by the second.
pub open spec fn pair_key(a: Seq<char>, b: Seq<char>) -> KeyFields {
    seq![utf8_of(a), utf8_of(b)]
}

pub proof fn lemma_pair_rank(x1: Seq<u8>, x2: Seq<u8>, y1: Seq<u8>, y2: Seq<u8>)
    ensures
        fields_rank(seq![x1, x2], seq![y1, y2]) == (if x1 == y1 {
            bytes_rank(x2, y2)
        } else {
            bytes_rank(x1, y1)
        }),
{
    let a = seq![x1, x2];
    let b = seq![y1, y2];
    lemma_bytes_lt_total(x1, y1);
    lemma_bytes_lt_asymmetric(x1, y1);
    lemma_bytes_lt_irreflexive(x1);
    assert(a.drop_first() =~= seq![x2]);
    assert(b.drop_first() =~= seq![y2]);
    lemma_single_field_rank(x2, y2);
    if x1 == y1 && x2 == y2 {
        assert(a =~= b);
    } else if x1 == y1 {
        assert(a.drop_first() != b.drop_first());
        assert(a != b);
    } else {
        assert(a[0] != b[0]);
    }
}

/// Compares two pairs of strings: by the first strings, then by the second.
pub fn rank_pair(a1: &str, a2: &str, b1: &str, b2: &str) -> (r: Rank)
    ensures
        r == fields_rank(pair_key(a1@, a2@), pair_key(b1@, b2@)),
{
    proof {
        lemma_pair_rank(utf8_of(a1@), utf8_of(a2@), utf8_of(b1@), utf8_of(b2@));
    }
    match rank_text(a1, b1) {
        Rank::Same => rank_text(a2, b2),
        r => r,
    }
}

/// Keys in strictly ascending order.
pub open spec fn strictly_sorted(ks: Seq<KeyFields>) -> bool {
    forall|i: int, j: int| 0 <= i < j < ks.len() ==> fields_lt(#[trigger] ks[i], #[trigger] ks[j])
}

/// Strictly sorted keys are distinct.
pub proof fn lemma_sorted_distinct(ks: Seq<KeyFields>, i: int, j: int)
    requires
        strictly_sorted(ks),
        0 <= i < ks.len(),
        0 <= j < ks.len(),
        ks[i] == ks[j],
    ensures
        i == j,
{
    if i != j {
        lemma_fields_lt_irreflexive(ks[i]);
    }
}

/// The keys of a list of entries.
pub open spec fn keys_of<V>(ps: Seq<(KeyFields, V)>) -> Seq<KeyFields> {
    ps.map_values(|e: (KeyFields, V)| e.0)
}

/// The map that a list of entries with distinct keys stands for.
pub open spec fn map_of<V>(ps: Seq<(KeyFields, V)>) -> Map<KeyFields, V> {
    Map::new(|k: KeyFields| keys_of(ps).contains(k), |k: KeyFields| ps[keys_of(ps).index_of(k)].1)
}

/// A list of entries with ascending keys holds one key of its map per entry.
pub proof fn lemma_map_of_len<V>(ps: Seq<(KeyFields, V)>)
    requires
        strictly_sorted(keys_of(ps)),
    ensures
        map_of(ps).dom().finite(),
        map_of(ps).dom().len() == ps.len(),
{
    let ks = keys_of(ps);
    assert forall|i: int, j: int| 0 <= i < ks.len() && 0 <= j < ks.len() && i != j implies ks[i] != ks[j] by {
        if ks[i] == ks[j] {
            lemma_sorted_distinct(ks, i, j);
        }
    }
    assert(ks.no_duplicates());
    ks.unique_seq_to_set();
    vstd::seq_lib::seq_to_set_is_finite(ks);
    assert(map_of(ps).dom() =~= ks.to_set());
}

/// Two ordered entry lists whose maps differ by one insert differ in length by
/// one exactly when the key was new.
pub proof fn lemma_len_after_insert<V>(p0: Seq<(KeyFields, V)>, p1: Seq<(KeyFields, V)>, k: KeyFields, v: V)
    requires
        strictly_sorted(keys_of(p0)),
        strictly_sorted(keys_of(p1)),
        map_of(p1) == map_of(p0).insert(k, v),
    ensures
        p1.len() == p0.len() + if map_of(p0).contains_key(k) { 0int } else { 1int },
{
    lemma_map_of_len(p0);
    lemma_map_of_len(p1);
    assert(map_of(p1).dom() =~= map_of(p0).dom().insert(k));
}

/// Two ordered entry lists whose maps differ by one removal differ in length by
/// one exactly when the key was there.
pub proof fn lemma_len_after_remove<V>(p0: Seq<(KeyFields, V)>, p1: Seq<(KeyFields, V)>, k: KeyFields)
    requires
        strictly_sorted(keys_of(p0)),
        strictly_sorted(keys_of(p1)),
        map_of(p1) == map_of(p0).remove(k),
    ensures
        p1.len() == p0.len() - if map_of(p0).contains_key(k) { 1int } else { 0int },
{
    lemma_map_of_len(p0);
    lemma_map_of_len(p1);
    assert(map_of(p1).dom() =~= map_of(p0).dom().remove(k));
}

/// An ordered map from keys to values.
pub struct SortedMap<K, V> {
    entries: Vec<(K, V)>,
}

impl<K: MapKey, V> SortedMap<K, V> {
    /// The keys, in the order of the walk.
    pub closed spec fn key_seq(&self) -> Seq<KeyFields> {
        Seq::new(self.entries@.len(), |i: int| self.entries@[i].0.key_fields())
    }

    /// The values, in the order of the walk.
    pub closed spec fn val_seq(&self) -> Seq<V> {
        Seq::new(self.entries@.len(), |i: int| self.entries@[i].1)
    }

    pub open spec fn wf(&self) -> bool {
        &&& self.key_seq().len() == self.val_seq().len()
        &&& strictly_sorted(self.key_seq())
    }

    /// The entries, in the order of the walk.
    pub open spec fn pairs(&self) -> Seq<(KeyFields, V)> {
        Seq::new(self.key_seq().len(), |i: int| (self.key_seq()[i], self.val_seq()[i]))
    }

    /// The entries stand for the map that the store holds.
    pub proof fn lemma_pairs(&self)
        requires
            self.wf(),
        ensures
            keys_of(self.pairs()) == self.key_seq(),
            map_of(self.pairs()) == self.as_map(),
            strictly_sorted(keys_of(self.pairs())),
    {
        assert(keys_of(self.pairs()) =~= self.key_seq());
        assert(map_of(self.pairs()) =~= self.as_map());
    }

    /// The map that the store holds.
    pub open spec fn as_map(&self) -> Map<KeyFields, V> {
        Map::new(
            |k: KeyFields| self.key_seq().contains(k),
            |k: KeyFields| self.val_seq()[self.key_seq().index_of(k)],
        )
    }

    pub proof fn lemma_unique(&self, i: int, j: int)
        requires
            self.wf(),
            0 <= i < self.key_seq().len(),
            0 <= j < self.key_seq().len(),
            self.key_seq()[i] == self.key_seq()[j],
        ensures
            i == j,
    {
        if i < j {
            lemma_fields_lt_irreflexive(self.key_seq()[i]);
        } else if j < i {
            lemma_fields_lt_irreflexive(self.key_seq()[i]);
        }
    }

    /// The value at position `i` is what the map holds for the key at `i`.
    pub proof fn lemma_at(&self, i: int)
        requires
            self.wf(),
            0 <= i < self.key_seq().len(),
        ensures
            self.as_map().contains_key(self.key_seq()[i]),
            self.as_map()[self.key_seq()[i]] == self.val_seq()[i],
    {
        let k = self.key_seq()[i];
        assert(self.key_seq().contains(k));
        let j = self.key_seq().index_of(k);
        self.lemma_unique(i, j);
    }

    /// The map holds one key per entry.
    pub proof fn lemma_dom_len(&self)
        requires
            self.wf(),
        ensures
            self.as_map().dom().finite(),
            self.as_map().dom().len() == self.key_seq().len(),
    {
        let ks = self.key_seq();
        assert forall|i: int, j: int| 0 <= i < ks.len() && 0 <= j < ks.len() && i != j implies ks[i] != ks[j] by {
            if ks[i] == ks[j] {
                self.lemma_unique(i, j);
            }
        }
        assert(ks.no_duplicates());
        ks.unique_seq_to_set();
        assert(self.as_map().dom() =~= ks.to_set());
        vstd::seq_lib::seq_to_set_is_finite(ks);
    }

    pub fn new() -> (m: Self)
        ensures
            m.wf(),
            m.key_seq() == Seq::<KeyFields>::empty(),
            m.val_seq() == Seq::<V>::empty(),
            m.as_map() == Map::<KeyFields, V>::empty(),
    {
        let m = SortedMap { entries: Vec::new() };
        assert(m.key_seq() =~= Seq::<KeyFields>::empty());
        assert(m.val_seq() =~= Seq::<V>::empty());
        assert(m.as_map() =~= Map::<KeyFields, V>::empty());
        m
    }

    pub fn len(&self) -> (n: usize)
        ensures
            n == self.key_seq().len(),
            n == self.val_seq().len(),
    {
        self.entries.len()
    }

    /// The entry at position `i` of the walk.
    pub fn entry_at(&self, i: usize) -> (r: (&K, &V))
        requires
            i < self.key_seq().len(),
        ensures
            r.0.key_fields() == self.key_seq()[i as int],
            *r.1 == self.val_seq()[i as int],
    {
        let e = &self.entries[i];
        (&e.0, &e.1)
    }

    /// Where `k` stands (`Ok`), or where it would be inserted (`Err`).
    pub fn find(&self, k: &K) -> (r: Result<usize, usize>)
        requires
            self.wf(),
        ensures
            match r {
                Ok(i) => i < self.key_seq().len() && self.key_seq()[i as int] == k.key_fields(),
                Err(p) => {
                    &&& p <= self.key_seq().len()
                    &&& !self.key_seq().contains(k.key_fields())
                    &&& forall|j: int| 0 <= j < p ==> fields_lt(#[trigger] self.key_seq()[j], k.key_fields())
                    &&& forall|j: int| p <= j < self.key_seq().len() ==> fields_lt(k.key_fields(), #[trigger] self.key_seq()[j])
                },
            },
    {
        let n = self.entries.len();
        let mut i: usize = 0;
        while i < n
            invariant
                self.wf(),
                n == self.key_seq().len(),
                i <= n,
                forall|j: int| 0 <= j < i ==> fields_lt(#[trigger] self.key_seq()[j], k.key_fields()),
            decreases n - i,
        {
            let r = k.rank_key(&self.entries[i].0);
            assert(self.entries@[i as int].0.key_fields() == self.key_seq()[i as int]);
            match r {
                Rank::Same => {
                    return Ok(i);
                },
                Rank::Below => {
                    proof {
                        let kf = k.key_fields();
                        assert forall|j: int| i <= j < n implies fields_lt(kf, #[trigger] self.key_seq()[j]) by {
                            if j > i {
                                lemma_fields_lt_transitive(kf, self.key_seq()[i as int], self.key_seq()[j]);
                            }
                        }
                        assert forall|j: int| 0 <= j < n implies self.key_seq()[j] != kf by {
                            lemma_fields_lt_total(self.key_seq()[j], kf);
                            lemma_fields_lt_total(kf, self.key_seq()[j]);
                        }
                    }
                    return Err(i);
                },
                Rank::Above => {
                    proof {
                        lemma_fields_lt_total(self.key_seq()[i as int], k.key_fields());
                    }
                },
            }
            i = i + 1;
        }
        proof {
            let kf = k.key_fields();
            assert forall|j: int| 0 <= j < n implies self.key_seq()[j] != kf by {
                lemma_fields_lt_total(self.key_seq()[j], kf);
            }
        }
        Err(n)
    }

    /// The value stored under `k`.
    pub fn get(&self, k: &K) -> (r: Option<&V>)
        requires
            self.wf(),
        ensures
            r.is_some() == self.as_map().contains_key(k.key_fields()),
            r matches Some(v) ==> *v == self.as_map()[k.key_fields()],
    {
        match self.find(k) {
            Ok(i) => {
                proof {
                    self.lemma_at(i as int);
                }
                Some(&self.entries[i].1)
            },
            Err(_) => None,
        }
    }

    pub fn contains_key(&self, k: &K) -> (r: bool)
        requires
            self.wf(),
        ensures
            r == self.as_map().contains_key(k.key_fields()),
    {
        match self.find(k) {
            Ok(i) => {
                assert(self.key_seq().contains(k.key_fields()));
                true
            },
            Err(_) => false,
        }
    }

    /// Stores `v` under `k`, replacing what was there.
    pub fn insert(&mut self, k: K, v: V)
        requires
            old(self).wf(),
        ensures
            final(self).wf(),
            final(self).as_map() == old(self).as_map().insert(k.key_fields(), v),
            old(self).as_map().contains_key(k.key_fields()) ==> exists|i: int|
                0 <= i < old(self).key_seq().len()
                && old(self).key_seq()[i] == k.key_fields()
                && final(self).key_seq() == old(self).key_seq()
                && final(self).val_seq() == old(self).val_seq().update(i, v),
            !old(self).as_map().contains_key(k.key_fields()) ==> exists|p: int|
                0 <= p <= old(self).key_seq().len()
                && final(self).key_seq() == old(self).key_seq().insert(p, k.key_fields())
                && final(self).val_seq() == old(self).val_seq().insert(p, v),
    {
        let ghost kf = k.key_fields();
        let ghost old_keys = self.key_seq();
        let ghost old_vals = self.val_seq();
        let ghost old_map = self.as_map();
        match self.find(&k) {
            Ok(i) => {
                self.entries.set(i, (k, v));
                proof {
                    assert(self.key_seq() =~= old_keys);
                    assert(self.val_seq() =~= old_vals.update(i as int, v));
                    assert forall|key: KeyFields| #[trigger] self.as_map().contains_key(key)
                        == old_map.insert(kf, v).contains_key(key) by {
                        assert(old_keys.contains(kf));
                    }
                    assert forall|key: KeyFields| self.as_map().contains_key(key) implies
                        #[trigger] self.as_map()[key] == old_map.insert(kf, v)[key] by {
                        let j = self.key_seq().index_of(key);
                        self.lemma_at(j);
                        if key == kf {
                            self.lemma_unique(j, i as int);
                        } else {
                            old(self).lemma_at(j);
                        }
                    }
                    assert(self.as_map() =~= old_map.insert(kf, v));
                }
            },
            Err(p) => {
                self.entries.insert(p, (k, v));
                proof {
                    assert(self.key_seq() =~= old_keys.insert(p as int, kf));
                    assert(self.val_seq() =~= old_vals.insert(p as int, v));
                    assert forall|a: int, b: int| 0 <= a < b < self.key_seq().len() implies
                        fields_lt(#[trigger] self.key_seq()[a], #[trigger] self.key_seq()[b]) by {
                        if b < p {
                        } else if a < p && b == p {
                        } else if a < p {
                            lemma_fields_lt_transitive(old_keys[a], kf, old_keys[b - 1]);
                        } else if a == p {
                        } else {
                        }
                    }
                    assert forall|key: KeyFields| #[trigger] self.as_map().contains_key(key)
                        == old_map.insert(kf, v).contains_key(key) by {
                        if self.key_seq().contains(key) {
                            let j = self.key_seq().index_of(key);
                            if j < p {
                                assert(old_keys[j] == key);
                            } else if j > p {
                                assert(old_keys[j - 1] == key);
                            }
                        }
                        if old_keys.contains(key) {
                            let j = old_keys.index_of(key);
                            if j < p {
                                assert(self.key_seq()[j] == key);
                            } else {
                                assert(self.key_seq()[j + 1] == key);
                            }
                        }
                        assert(self.key_seq()[p as int] == kf);
                    }
                    assert forall|key: KeyFields| self.as_map().contains_key(key) implies
                        #[trigger] self.as_map()[key] == old_map.insert(kf, v)[key] by {
                        let j = self.key_seq().index_of(key);
                        self.lemma_at(j);
                        if j < p {
                            old(self).lemma_at(j);
                            lemma_fields_lt_total(old_keys[j], kf);
                        } else if j > p {
                            old(self).lemma_at(j - 1);
                            lemma_fields_lt_total(kf, old_keys[j - 1]);
                        }
                    }
                    assert(self.as_map() =~= old_map.insert(kf, v));
                }
            },
        }
    }

    /// Removes the entry at position `i` of the walk, and hands it back.
    pub fn remove_at(&mut self, i: usize) -> (r: (K, V))
        requires
            old(self).wf(),
            i < old(self).key_seq().len(),
        ensures
            final(self).wf(),
            final(self).pairs() == old(self).pairs().remove(i as int),
            r.0.key_fields() == old(self).key_seq()[i as int],
            r.1 == old(self).val_seq()[i as int],
    {
        let ghost old_keys = self.key_seq();
        let e = self.entries.remove(i);
        proof {
            assert(self.key_seq() =~= old_keys.remove(i as int));
            assert forall|a: int, b: int| 0 <= a < b < self.key_seq().len() implies
                fields_lt(#[trigger] self.key_seq()[a], #[trigger] self.key_seq()[b]) by {
                if b < i {
                } else if a < i {
                    assert(self.key_seq()[b] == old_keys[b + 1]);
                } else {
                    assert(self.key_seq()[a] == old_keys[a + 1]);
                    assert(self.key_seq()[b] == old_keys[b + 1]);
                }
            }
            assert(self.pairs() =~= old(self).pairs().remove(i as int));
        }
        e
    }

    /// Removes what is stored under `k`, and hands it back.
    pub fn remove(&mut self, k: &K) -> (r: Option<V>)
        requires
            old(self).wf(),
        ensures
            final(self).wf(),
            final(self).as_map() == old(self).as_map().remove(k.key_fields()),
            r.is_some() == old(self).as_map().contains_key(k.key_fields()),
            r matches Some(v) ==> v == old(self).as_map()[k.key_fields()],
            r.is_some() ==> exists|i: int|
                0 <= i < old(self).key_seq().len()
                && old(self).key_seq()[i] == k.key_fields()
                && final(self).key_seq() == old(self).key_seq().remove(i)
                && final(self).val_seq() == old(self).val_seq().remove(i),
            r.is_none() ==> final(self).key_seq() == old(self).key_seq() && final(self).val_seq()
                == old(self).val_seq(),
    {
        let ghost kf = k.key_fields();
        let ghost old_keys = self.key_seq();
        let ghost old_vals = self.val_seq();
        let ghost old_map = self.as_map();
        match self.find(k) {
            Ok(i) => {
                proof {
                    old(self).lemma_at(i as int);
                }
                let e = self.entries.remove(i);
                proof {
                    assert(self.key_seq() =~= old_keys.remove(i as int));
                    assert(self.val_seq() =~= old_vals.remove(i as int));
                    assert forall|a: int, b: int| 0 <= a < b < self.key_seq().len() implies
                        fields_lt(#[trigger] self.key_seq()[a], #[trigger] self.key_seq()[b]) by {
                        if b < i {
                        } else if a < i {
                            assert(self.key_seq()[b] == old_keys[b + 1]);
                        } else {
                            assert(self.key_seq()[a] == old_keys[a + 1]);
                            assert(self.key_seq()[b] == old_keys[b + 1]);
                        }
                    }
                    assert forall|key: KeyFields| #[trigger] self.as_map().contains_key(key)
                        == old_map.remove(kf).contains_key(key) by {
                        if self.key_seq().contains(key) {
                            let j = self.key_seq().index_of(key);
                            if j < i {
                                assert(old_keys[j] == key);
                                if key == kf {
                                    old(self).lemma_unique(j, i as int);
                                }
                            } else {
                                assert(old_keys[j + 1] == key);
                                if key == kf {
                                    old(self).lemma_unique(j + 1, i as int);
                                }
                            }
                        }
                        if old_keys.contains(key) && key != kf {
                            let j = old_keys.index_of(key);
                            if j < i {
                                assert(self.key_seq()[j] == key);
                            } else if j > i {
                                assert(self.key_seq()[j - 1] == key);
                            }
                        }
                    }
                    assert forall|key: KeyFields| self.as_map().contains_key(key) implies
                        #[trigger] self.as_map()[key] == old_map.remove(kf)[key] by {
                        let j = self.key_seq().index_of(key);
                        self.lemma_at(j);
                        if j < i {
                            old(self).lemma_at(j);
                        } else {
                            old(self).lemma_at(j + 1);
                        }
                    }
                    assert(self.as_map() =~= old_map.remove(kf));
                }
                Some(e.1)
            },
            Err(_) => {
                assert(old_map.remove(kf) =~= old_map);
                None
            },
        }
    }
}

} // verus!
