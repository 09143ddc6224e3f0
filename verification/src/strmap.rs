//! A map with text keys, kept in dictionary order of its keys.

use vstd::prelude::*;

use crate::order::Rank;
use crate::sorting::{collation_flips, collation_is_transitive, plain_order_is_antisymmetric,
    Collation};
use crate::text::{rank_text, text_rank};

verus! {

/// Whether a listing is in strictly ascending order of its keys.
pub open spec fn ascending<V>(l: Seq<(Seq<char>, V)>) -> bool {
    forall|i: int, j: int|
        0 <= i < j < l.len() ==> text_rank((#[trigger] l[i]).0, (#[trigger] l[j]).0) == Rank::Less
}

/// Whether the listing has an entry under `key`.
pub open spec fn lists<V>(l: Seq<(Seq<char>, V)>, key: Seq<char>) -> bool {
    exists|i: int| 0 <= i < l.len() && (#[trigger] l[i]).0 == key
}

/// The map that a listing spells out.
pub open spec fn map_of<V>(l: Seq<(Seq<char>, V)>) -> Map<Seq<char>, V> {
    Map::new(
        |key: Seq<char>| lists(l, key),
        |key: Seq<char>| l[choose|i: int| 0 <= i < l.len() && (#[trigger] l[i]).0 == key].1,
    )
}

/// In an ascending listing each entry is what the map holds under its key.
pub proof fn lemma_listed<V>(l: Seq<(Seq<char>, V)>, i: int)
    requires
        ascending(l),
        0 <= i < l.len(),
    ensures
        map_of(l).contains_key(l[i].0),
        map_of(l)[l[i].0] == l[i].1,
        forall|j: int| 0 <= j < l.len() && (#[trigger] l[j]).0 == l[i].0 ==> j == i,
{
    let key = l[i].0;
    plain_order_is_antisymmetric(key, key);
    assert(lists(l, key));
    assert forall|j: int| 0 <= j < l.len() && (#[trigger] l[j]).0 == key implies j == i by {
        if j < i {
            assert(text_rank(l[j].0, l[i].0) == Rank::Less);
        } else if i < j {
            assert(text_rank(l[i].0, l[j].0) == Rank::Less);
        }
    }
}

/// An ascending listing is as long as the map it spells out is large.
pub proof fn lemma_listing_len<V>(l: Seq<(Seq<char>, V)>)
    requires
        ascending(l),
    ensures
        map_of(l).dom().finite(),
        map_of(l).len() == l.len(),
{
    let keys = l.map_values(|e: (Seq<char>, V)| e.0);
    assert forall|i: int, j: int| 0 <= i < keys.len() && 0 <= j < keys.len() && i != j implies keys[i]
        != keys[j] by {
        lemma_listed(l, i);
        assert(keys[i] == l[i].0 && keys[j] == l[j].0);
    }
    keys.unique_seq_to_set();
    assert forall|key: Seq<char>| map_of(l).dom().contains(key) <==> keys.to_set().contains(key) by {
        if map_of(l).dom().contains(key) {
            let i = choose|i: int| 0 <= i < l.len() && (#[trigger] l[i]).0 == key;
            assert(keys[i] == key);
        }
        if keys.to_set().contains(key) {
            let i = choose|i: int| 0 <= i < keys.len() && keys[i] == key;
            assert(l[i].0 == key);
        }
    }
    assert(map_of(l).dom() =~= keys.to_set());
}

/// Two ascending listings of one map are the same: the order in which a map's
/// entries are listed is fully determined.
pub proof fn listing_is_unique<V>(l: Seq<(Seq<char>, V)>, m: Seq<(Seq<char>, V)>)
    requires
        ascending(l),
        ascending(m),
        map_of(l) == map_of(m),
    ensures
        l == m,
    decreases l.len(),
{
    lemma_listing_len(l);
    lemma_listing_len(m);
    if l.len() > 0 {
        let n = l.len() - 1;
        let a = l[n];
        let b = m[n];
        lemma_listed(l, n);
        lemma_listed(m, n);
        assert(lists(m, a.0));
        assert(lists(l, b.0));
        let i = choose|i: int| 0 <= i < m.len() && (#[trigger] m[i]).0 == a.0;
        let j = choose|j: int| 0 <= j < l.len() && (#[trigger] l[j]).0 == b.0;
        if a.0 != b.0 {
            assert(text_rank(m[i].0, m[n].0) == Rank::Less);
            assert(text_rank(l[j].0, l[n].0) == Rank::Less);
            collation_flips(Collation::Plain, a.0, b.0);
        }
        assert(a == b);
        let l0 = l.drop_last();
        let m0 = m.drop_last();
        lemma_remove(l, n);
        lemma_remove(m, n);
        assert(l.remove(n) =~= l0);
        assert(m.remove(n) =~= m0);
        assert(ascending(l0)) by {
            assert forall|i: int, j: int| 0 <= i < j < l0.len() implies text_rank(
                (#[trigger] l0[i]).0,
                (#[trigger] l0[j]).0,
            ) == Rank::Less by {
                assert(l0[i] == l[i] && l0[j] == l[j]);
            }
        }
        listing_is_unique(l0, m0);
        assert(l =~= l0.push(a));
        assert(m =~= m0.push(b));
    } else {
        assert(l =~= m);
    }
}

/// Listing one entry more adds it to the map.
pub proof fn lemma_prefix<V>(l: Seq<(Seq<char>, V)>, i: int)
    requires
        ascending(l),
        0 <= i < l.len(),
    ensures
        map_of(l.take(i + 1)) == map_of(l.take(i)).insert(l[i].0, l[i].1),
        !map_of(l.take(i)).contains_key(l[i].0),
{
    let m = l.take(i);
    assert forall|x: int, y: int| 0 <= x < y < m.len() implies text_rank(
        (#[trigger] m[x]).0,
        (#[trigger] m[y]).0,
    ) == Rank::Less by {
        assert(m[x] == l[x] && m[y] == l[y]);
    }
    assert forall|x: int| 0 <= x < m.len() implies text_rank((#[trigger] m[x]).0, l[i].0)
        == Rank::Less by {
        assert(m[x] == l[x]);
    }
    lemma_insert(m, i, l[i]);
    assert(m.insert(i, l[i]) =~= l.take(i + 1));
}

proof fn lemma_remove<V>(l: Seq<(Seq<char>, V)>, p: int)
    requires
        ascending(l),
        0 <= p < l.len(),
    ensures
        ascending(l.remove(p)),
        map_of(l.remove(p)) == map_of(l).remove(l[p].0),
{
    let m = l.remove(p);
    let key = l[p].0;
    assert forall|i: int, j: int| 0 <= i < j < m.len() implies text_rank(
        (#[trigger] m[i]).0,
        (#[trigger] m[j]).0,
    ) == Rank::Less by {
        let i0 = if i < p { i } else { i + 1 };
        let j0 = if j < p { j } else { j + 1 };
        assert(m[i] == l[i0] && m[j] == l[j0]);
    }
    lemma_listed(l, p);
    assert forall|k: Seq<char>| #[trigger] map_of(m).contains_key(k) <==> map_of(l).remove(
        key,
    ).contains_key(k) by {
        if lists(m, k) {
            let i = choose|i: int| 0 <= i < m.len() && (#[trigger] m[i]).0 == k;
            let i0 = if i < p { i } else { i + 1 };
            assert(l[i0] == m[i]);
        }
        if lists(l, k) && k != key {
            let i = choose|i: int| 0 <= i < l.len() && (#[trigger] l[i]).0 == k;
            let i0 = if i < p { i } else { i - 1 };
            assert(m[i0] == l[i]);
        }
    }
    assert forall|k: Seq<char>| #[trigger] map_of(m).contains_key(k) implies map_of(m)[k] == map_of(
        l,
    )[k] by {
        let i = choose|i: int| 0 <= i < m.len() && (#[trigger] m[i]).0 == k;
        let i0 = if i < p { i } else { i + 1 };
        assert(l[i0] == m[i]);
        lemma_listed(l, i0);
        lemma_listed(m, i);
    }
    assert(map_of(m) =~= map_of(l).remove(key));
}

proof fn lemma_insert<V>(l: Seq<(Seq<char>, V)>, p: int, e: (Seq<char>, V))
    requires
        ascending(l),
        0 <= p <= l.len(),
        forall|i: int| 0 <= i < p ==> text_rank((#[trigger] l[i]).0, e.0) == Rank::Less,
        forall|i: int| p <= i < l.len() ==> text_rank(e.0, (#[trigger] l[i]).0) == Rank::Less,
    ensures
        ascending(l.insert(p, e)),
        map_of(l.insert(p, e)) == map_of(l).insert(e.0, e.1),
        !map_of(l).contains_key(e.0),
{
    let m = l.insert(p, e);
    plain_order_is_antisymmetric(e.0, e.0);
    assert(!lists(l, e.0)) by {
        if lists(l, e.0) {
            let i = choose|i: int| 0 <= i < l.len() && (#[trigger] l[i]).0 == e.0;
        }
    }
    assert forall|i: int, j: int| 0 <= i < j < m.len() implies text_rank(
        (#[trigger] m[i]).0,
        (#[trigger] m[j]).0,
    ) == Rank::Less by {
        if i != p {
            assert(m[i] == l[if i < p { i } else { i - 1 }]);
        }
        if j != p {
            assert(m[j] == l[if j < p { j } else { j - 1 }]);
        }
    }
    assert(m[p] == e);
    lemma_listed(m, p);
    assert forall|k: Seq<char>| #[trigger] map_of(m).contains_key(k) <==> map_of(l).insert(
        e.0,
        e.1,
    ).contains_key(k) by {
        if lists(m, k) && k != e.0 {
            let i = choose|i: int| 0 <= i < m.len() && (#[trigger] m[i]).0 == k;
            assert(l[if i < p { i } else { i - 1 }] == m[i]);
        }
        if lists(l, k) {
            let i = choose|i: int| 0 <= i < l.len() && (#[trigger] l[i]).0 == k;
            assert(m[if i < p { i } else { i + 1 }] == l[i]);
        }
    }
    assert forall|k: Seq<char>| #[trigger] map_of(m).contains_key(k) implies map_of(m)[k] == map_of(
        l,
    ).insert(e.0, e.1)[k] by {
        if k != e.0 {
            let i = choose|i: int| 0 <= i < m.len() && (#[trigger] m[i]).0 == k;
            let i0 = if i < p { i } else { i - 1 };
            assert(l[i0] == m[i]);
            lemma_listed(l, i0);
            lemma_listed(m, i);
        }
    }
    assert(map_of(m) =~= map_of(l).insert(e.0, e.1));
}

/// A map from texts to values, listed in dictionary order of its keys.
#[derive(Debug, PartialEq, Eq)]
pub struct StringMap<V> {
    entries: Vec<(String, V)>,
}

impl<V> View for StringMap<V> {
    type V = Map<Seq<char>, V>;

    open spec fn view(&self) -> Map<Seq<char>, V> {
        map_of(self.listing())
    }
}

impl<V: Clone> Clone for StringMap<V> {
    fn clone(&self) -> (res: Self)
        ensures
            res.listing().len() == self.listing().len(),
            forall|i: int|
                0 <= i < res.listing().len() ==> (#[trigger] res.listing()[i]).0
                    == self.listing()[i].0 && cloned(self.listing()[i].1, res.listing()[i].1),
    {
        proof {
            use_type_invariant(self);
        }
        let ghost l = self.listing();
        let mut entries: Vec<(String, V)> = Vec::new();
        let mut i: usize = 0;
        while i < self.entries.len()
            invariant
                i <= self.entries@.len(),
                l == self.listing(),
                entries@.len() == i,
                forall|k: int|
                    0 <= k < i ==> (#[trigger] entries@[k]).0@ == l[k].0 && cloned(
                        l[k].1,
                        entries@[k].1,
                    ),
            decreases self.entries@.len() - i,
        {
            let key = self.entries[i].0.clone();
            let value = self.entries[i].1.clone();
            assert(l[i as int] == (self.entries@[i as int].0@, self.entries@[i as int].1));
            entries.push((key, value));
            i = i + 1;
        }
        let ghost m = entries@.map_values(|e: (String, V)| (e.0@, e.1));
        assert forall|i: int, j: int| 0 <= i < j < m.len() implies text_rank(
            (#[trigger] m[i]).0,
            (#[trigger] m[j]).0,
        ) == Rank::Less by {
            assert(text_rank(l[i].0, l[j].0) == Rank::Less);
        }
        StringMap { entries }
    }
}

impl<V> StringMap<V> {
    /// The entries, key by key, in the order in which they are listed.
    pub closed spec fn listing(&self) -> Seq<(Seq<char>, V)> {
        self.entries@.map_values(|e: (String, V)| (e.0@, e.1))
    }

    #[verifier::type_invariant]
    spec fn in_order(&self) -> bool {
        ascending(self.listing())
    }

    /// A map without entries.
    pub fn new() -> (res: Self)
        ensures
            res@ == Map::<Seq<char>, V>::empty(),
            res.listing() == Seq::<(Seq<char>, V)>::empty(),
    {
        let res = StringMap { entries: Vec::new() };
        assert(res@ =~= Map::<Seq<char>, V>::empty());
        res
    }

    /// How many entries there are.
    pub fn len(&self) -> (n: usize)
        ensures
            n == self@.len(),
            n == self.listing().len(),
            self@.dom().finite(),
            ascending(self.listing()),
    {
        proof {
            use_type_invariant(self);
            lemma_listing_len(self.listing());
        }
        self.entries.len()
    }

    /// Whether there are no entries.
    pub fn is_empty(&self) -> (res: bool)
        ensures
            res == (self@ == Map::<Seq<char>, V>::empty()),
    {
        let n: usize = self.len();
        proof {
            if n == 0 {
                assert(self@ =~= Map::<Seq<char>, V>::empty());
            } else {
                lemma_listed(self.listing(), 0);
            }
        }
        n == 0
    }

    /// The key at place `i` of the listing.
    pub fn key_at(&self, i: usize) -> (key: &str)
        requires
            i < self.listing().len(),
        ensures
            key@ == self.listing()[i as int].0,
            self@.contains_key(key@),
            self@[key@] == self.listing()[i as int].1,
    {
        proof {
            use_type_invariant(self);
            lemma_listed(self.listing(), i as int);
        }
        self.entries[i].0.as_str()
    }

    /// The value at place `i` of the listing.
    pub fn value_at(&self, i: usize) -> (value: &V)
        requires
            i < self.listing().len(),
        ensures
            *value == self.listing()[i as int].1,
    {
        &self.entries[i].1
    }

    /// Where `key` stands in the listing, or where it would belong.
    fn locate(&self, key: &str) -> (res: (usize, bool))
        ensures
            res.0 <= self.listing().len(),
            res.1 ==> res.0 < self.listing().len() && self.listing()[res.0 as int].0 == key@,
            !res.1 ==> forall|i: int|
                0 <= i < res.0 ==> text_rank((#[trigger] self.listing()[i]).0, key@) == Rank::Less,
            !res.1 ==> forall|i: int|
                res.0 <= i < self.listing().len() ==> text_rank(key@, (#[trigger] self.listing()[i]).0)
                    == Rank::Less,
    {
        proof {
            use_type_invariant(self);
        }
        let ghost l = self.listing();
        let mut low: usize = 0;
        let mut high: usize = self.entries.len();
        while low < high
            invariant
                low <= high <= l.len(),
                l == self.listing(),
                ascending(l),
                forall|i: int| 0 <= i < low ==> text_rank((#[trigger] l[i]).0, key@) == Rank::Less,
                forall|i: int|
                    high <= i < l.len() ==> text_rank(key@, (#[trigger] l[i]).0) == Rank::Less,
            decreases high - low,
        {
            let mid: usize = low + (high - low) / 2;
            assert(l[mid as int].0 == self.entries@[mid as int].0@);
            match rank_text(self.entries[mid].0.as_str(), key) {
                Rank::Equal => {
                    proof {
                        plain_order_is_antisymmetric(l[mid as int].0, key@);
                    }
                    return (mid, true);
                },
                Rank::Less => {
                    proof {
                        assert forall|i: int| 0 <= i < mid + 1 implies text_rank(
                            (#[trigger] l[i]).0,
                            key@,
                        ) == Rank::Less by {
                            if i < mid {
                                collation_is_transitive(
                                    Collation::Plain,
                                    l[i].0,
                                    l[mid as int].0,
                                    key@,
                                );
                            }
                        }
                    }
                    low = mid + 1;
                },
                Rank::Greater => {
                    proof {
                        collation_flips(Collation::Plain, l[mid as int].0, key@);
                        assert forall|i: int| mid <= i < l.len() implies text_rank(
                            key@,
                            (#[trigger] l[i]).0,
                        ) == Rank::Less by {
                            if mid < i {
                                collation_is_transitive(
                                    Collation::Plain,
                                    key@,
                                    l[mid as int].0,
                                    l[i].0,
                                );
                            }
                        }
                    }
                    high = mid;
                },
            }
        }
        (low, false)
    }

    proof fn lemma_absent(l: Seq<(Seq<char>, V)>, p: int, key: Seq<char>)
        requires
            0 <= p <= l.len(),
            forall|i: int| 0 <= i < p ==> text_rank((#[trigger] l[i]).0, key) == Rank::Less,
            forall|i: int| p <= i < l.len() ==> text_rank(key, (#[trigger] l[i]).0) == Rank::Less,
        ensures
            !map_of(l).contains_key(key),
    {
        plain_order_is_antisymmetric(key, key);
        if lists(l, key) {
            let i = choose|i: int| 0 <= i < l.len() && (#[trigger] l[i]).0 == key;
        }
    }

    /// The value under `key`, if there is one.
    pub fn get(&self, key: &str) -> (res: Option<&V>)
        ensures
            res is Some <==> self@.contains_key(key@),
            res is Some ==> *res->0 == self@[key@],
    {
        let (p, found) = self.locate(key);
        proof {
            use_type_invariant(self);
            if found {
                lemma_listed(self.listing(), p as int);
            } else {
                Self::lemma_absent(self.listing(), p as int, key@);
            }
        }
        if found {
            Some(&self.entries[p].1)
        } else {
            None
        }
    }

    /// Puts `value` under `key`, in place of what was there.
    pub fn insert(&mut self, key: String, value: V)
        ensures
            final(self)@ == old(self)@.insert(key@, value),
    {
        let (p, found) = self.locate(key.as_str());
        proof {
            use_type_invariant(&*self);
        }
        let ghost l = self.listing();
        let ghost e = (key@, value);
        let mut entries: Vec<(String, V)> = Vec::new();
        std::mem::swap(&mut entries, &mut self.entries);
        if found {
            entries.remove(p);
            proof {
                let m = l.remove(p as int);
                lemma_remove(l, p as int);
                assert forall|i: int| 0 <= i < p implies text_rank((#[trigger] m[i]).0, e.0)
                    == Rank::Less by {
                    assert(m[i] == l[i]);
                    assert(text_rank(l[i].0, l[p as int].0) == Rank::Less);
                }
                assert forall|i: int| p <= i < m.len() implies text_rank(e.0, (#[trigger] m[i]).0)
                    == Rank::Less by {
                    assert(m[i] == l[i + 1]);
                    assert(text_rank(l[p as int].0, l[i + 1].0) == Rank::Less);
                }
                lemma_insert(m, p as int, e);
                assert(m.insert(p as int, e) =~= l.update(p as int, e));
                assert(map_of(l).remove(key@).insert(key@, value) =~= map_of(l).insert(
                    key@,
                    value,
                ));
            }
        } else {
            proof {
                lemma_insert(l, p as int, e);
            }
        }
        entries.insert(p, (key, value));
        proof {
            let m = entries@.map_values(|e: (String, V)| (e.0@, e.1));
            if found {
                assert(m =~= l.remove(p as int).insert(p as int, e));
            } else {
                assert(m =~= l.insert(p as int, e));
            }
        }
        self.entries = entries;
    }

    /// Takes the entry under `key` out and hands back its value.
    pub fn remove(&mut self, key: &str) -> (res: Option<V>)
        ensures
            final(self)@ == old(self)@.remove(key@),
            res is Some <==> old(self)@.contains_key(key@),
            res is Some ==> res->0 == old(self)@[key@],
    {
        let (p, found) = self.locate(key);
        proof {
            use_type_invariant(&*self);
        }
        let ghost l = self.listing();
        if !found {
            proof {
                Self::lemma_absent(l, p as int, key@);
                assert(map_of(l).remove(key@) =~= map_of(l));
            }
            return None;
        }
        let mut entries: Vec<(String, V)> = Vec::new();
        std::mem::swap(&mut entries, &mut self.entries);
        let (_, value) = entries.remove(p);
        proof {
            lemma_listed(l, p as int);
            lemma_remove(l, p as int);
            assert(entries@.map_values(|e: (String, V)| (e.0@, e.1)) =~= l.remove(p as int));
        }
        self.entries = entries;
        Some(value)
    }
}

/// The map of a listing has a key exactly when an entry has it, and in a listing
/// whose keys ascend it has that entry's value under it.
pub proof fn listings_spell_out_maps<V>(l: Seq<(Seq<char>, V)>, key: Seq<char>, i: int)
    requires
        ascending(l),
        0 <= i < l.len(),
    ensures
        map_of(l).contains_key(l[i].0),
        map_of(l)[l[i].0] == l[i].1,
        (forall|k: int| 0 <= k < l.len() ==> (#[trigger] l[k]).0 != key) ==> !map_of(l).contains_key(
            key,
        ),
        i + 1 < l.len() ==> text_rank(l[i].0, l[i + 1].0) == Rank::Less,
{
    lemma_listed(l, i);
}

} // verus!
