//! Maps and sets keyed by text.
//!
//! `OrderMap` maps names to load orders and `StrSet` is a set of names: both hold their
//! entries in a `Vec` in which no key occurs twice, in the order they were first inserted.
use vstd::prelude::*;
use crate::text::str_eq;

verus! {

/// The keys of a list of pairs.
pub open spec fn pair_keys(v: Seq<(String, usize)>) -> Seq<Seq<char>> {
    v.map_values(|e: (String, usize)| e.0@)
}

/// `true` when no element occurs twice.
pub open spec fn no_dups<T>(s: Seq<T>) -> bool {
    forall|i: int, j: int| 0 <= i < s.len() && 0 <= j < s.len() && i != j ==> s[i] != s[j]
}

/// A map from file names to load-order values.
#[derive(Debug)]
pub struct OrderMap {
    entries: Vec<(String, usize)>,
}

impl OrderMap {
    #[verifier::type_invariant]
    spec fn inv(self) -> bool {
        no_dups(pair_keys(self.entries@))
    }

    /// The entries, in the order they were first inserted.
    pub closed spec fn pairs(self) -> Seq<(Seq<char>, usize)> {
        self.entries@.map_values(|e: (String, usize)| (e.0@, e.1))
    }

    /// The map the entries make.
    pub open spec fn view(self) -> Map<Seq<char>, usize> {
        Map::new(
            |k: Seq<char>| exists|i: int| 0 <= i < self.pairs().len() && #[trigger] self.pairs()[i].0 == k,
            |k: Seq<char>| self.pairs()[choose|i: int| 0 <= i < self.pairs().len() && #[trigger] self.pairs()[i].0 == k].1,
        )
    }

    /// An empty map.
    pub fn new() -> (m: OrderMap)
        ensures
            m.pairs().len() == 0,
            m.view() == Map::<Seq<char>, usize>::empty(),
    {
        let m = OrderMap { entries: Vec::new() };
        assert(m.view() =~= Map::<Seq<char>, usize>::empty());
        m
    }

    /// The number of keys.
    pub fn len(&self) -> (n: usize)
        ensures
            n == self.pairs().len(),
            n == self.view().dom().len(),
    {
        proof {
            use_type_invariant(self);
            self.lemma_dom_len();
        }
        self.entries.len()
    }

    proof fn lemma_pairs_distinct(self)
        requires
            self.inv(),
        ensures
            forall|i: int, j: int|
                0 <= i < self.pairs().len() && 0 <= j < self.pairs().len() && i != j
                    ==> self.pairs()[i].0 != self.pairs()[j].0,
    {
        assert forall|i: int, j: int|
            0 <= i < self.pairs().len() && 0 <= j < self.pairs().len() && i != j
                implies self.pairs()[i].0 != self.pairs()[j].0 by {
            assert(pair_keys(self.entries@)[i] == self.pairs()[i].0);
            assert(pair_keys(self.entries@)[j] == self.pairs()[j].0);
        }
    }

    /// The value of a key is the value of its only pair.
    proof fn lemma_view_at(self, i: int)
        requires
            self.inv(),
            0 <= i < self.pairs().len(),
        ensures
            self.view().contains_key(self.pairs()[i].0),
            self.view()[self.pairs()[i].0] == self.pairs()[i].1,
    {
        self.lemma_pairs_distinct();
        let k = self.pairs()[i].0;
        assert(self.view().dom().contains(k));
        let j = choose|j: int| 0 <= j < self.pairs().len() && #[trigger] self.pairs()[j].0 == k;
        assert(j == i);
    }

    proof fn lemma_dom_len(self)
        requires
            self.inv(),
        ensures
            self.view().dom().len() == self.pairs().len(),
            self.view().dom() == self.pairs().map_values(|e: (Seq<char>, usize)| e.0).to_set(),
    {
        self.lemma_pairs_distinct();
        let ks = self.pairs().map_values(|e: (Seq<char>, usize)| e.0);
        assert(self.view().dom() =~= ks.to_set()) by {
            assert forall|k: Seq<char>| self.view().dom().contains(k) implies ks.to_set().contains(k) by {
                let i = choose|i: int| 0 <= i < self.pairs().len() && #[trigger] self.pairs()[i].0 == k;
                assert(ks[i] == k);
            }
            assert forall|k: Seq<char>| ks.to_set().contains(k) implies self.view().dom().contains(k) by {
                let i = choose|i: int| 0 <= i < ks.len() && ks[i] == k;
                assert(self.pairs()[i].0 == k);
            }
        }
        assert(ks.no_duplicates()) by {
            assert forall|i: int, j: int| 0 <= i < ks.len() && 0 <= j < ks.len() && i != j implies ks[i] != ks[j] by {
                assert(ks[i] == self.pairs()[i].0);
                assert(ks[j] == self.pairs()[j].0);
            }
        }
        ks.unique_seq_to_set();
    }

    /// The position of `key` among the entries.
    fn position(&self, key: &str) -> (r: Option<usize>)
        ensures
            match r {
                Some(i) => i < self.pairs().len() && self.pairs()[i as int].0 == key@,
                None => forall|i: int| 0 <= i < self.pairs().len() ==> self.pairs()[i].0 != key@,
            },
    {
        let mut i: usize = 0;
        while i < self.entries.len()
            invariant
                i <= self.entries@.len(),
                forall|j: int| 0 <= j < i ==> self.pairs()[j].0 != key@,
            decreases self.entries@.len() - i,
        {
            if str_eq(self.entries[i].0.as_str(), key) {
                return Some(i);
            }
            i = i + 1;
        }
        None
    }

    /// The value of `key` (`HashMap::get`).
    pub fn get(&self, key: &str) -> (r: Option<usize>)
        ensures
            match r {
                Some(v) => self.view().contains_key(key@) && self.view()[key@] == v,
                None => !self.view().contains_key(key@),
            },
    {
        match self.position(key) {
            Some(i) => {
                proof {
                    use_type_invariant(self);
                    self.lemma_view_at(i as int);
                }
                Some(self.entries[i].1)
            },
            None => None,
        }
    }

    /// `true` when `key` has a value.
    pub fn contains_key(&self, key: &str) -> (r: bool)
        ensures
            r == self.view().contains_key(key@),
    {
        self.get(key).is_some()
    }

    /// Sets the value of `key` (`HashMap::insert`); a new key comes last.
    pub fn insert(&mut self, key: &str, value: usize)
        ensures
            final(self).view() == old(self).view().insert(key@, value),
    {
        proof {
            use_type_invariant(&*self);
        }
        let ghost old_pairs = self.pairs();
        match self.position(key) {
            Some(i) => {
                let mut entries: Vec<(String, usize)> = Vec::new();
                std::mem::swap(&mut entries, &mut self.entries);
                entries.set(i, (key.to_owned(), value));
                proof {
                    assert(pair_keys(entries@) =~= pair_keys(old(self).entries@));
                }
                self.entries = entries;
                proof {
                    use_type_invariant(&*self);
                    self.lemma_pairs_distinct();
                    assert(self.pairs() =~= old(self).pairs().update(i as int, (key@, value)));
                    assert(self.pairs()[i as int].0 == key@);
                    assert forall|k: Seq<char>| self.view().contains_key(k) <==> old(self).view().insert(key@, value).contains_key(k) by {
                        if k != key@ && old(self).view().contains_key(k) {
                            let j = choose|j: int| 0 <= j < old(self).pairs().len() && #[trigger] old(self).pairs()[j].0 == k;
                            assert(self.pairs()[j].0 == k);
                        }
                        if self.view().contains_key(k) {
                            let j = choose|j: int| 0 <= j < self.pairs().len() && #[trigger] self.pairs()[j].0 == k;
                            if j != i {
                                assert(old(self).pairs()[j].0 == k);
                            }
                        }
                    }
                    assert forall|k: Seq<char>| #[trigger] self.view().contains_key(k) implies self.view()[k] == old(self).view().insert(key@, value)[k] by {
                        let j = choose|j: int| 0 <= j < self.pairs().len() && #[trigger] self.pairs()[j].0 == k;
                        self.lemma_view_at(j);
                        if j != i {
                            assert(old(self).pairs()[j] == self.pairs()[j]);
                            old(self).lemma_view_at(j);
                        }
                    }
                    assert(self.view() =~= old(self).view().insert(key@, value));
                }
            },
            None => {
                let mut entries: Vec<(String, usize)> = Vec::new();
                std::mem::swap(&mut entries, &mut self.entries);
                entries.push((key.to_owned(), value));
                proof {
                    assert(pair_keys(entries@) =~= pair_keys(old(self).entries@).push(key@));
                    assert forall|a: int, b: int|
                        0 <= a < pair_keys(entries@).len() && 0 <= b < pair_keys(entries@).len() && a != b
                            implies pair_keys(entries@)[a] != pair_keys(entries@)[b] by {
                        if a < old_pairs.len() && b < old_pairs.len() {
                        } else if a < old_pairs.len() {
                            assert(old_pairs[a].0 == pair_keys(old(self).entries@)[a]);
                        } else {
                            assert(old_pairs[b].0 == pair_keys(old(self).entries@)[b]);
                        }
                    }
                }
                self.entries = entries;
                proof {
                    use_type_invariant(&*self);
                    let n = old_pairs.len() as int;
                    assert(self.pairs() =~= old_pairs.push((key@, value)));
                    assert forall|k: Seq<char>| self.view().contains_key(k) <==> old(self).view().insert(key@, value).contains_key(k) by {
                        if k != key@ && old(self).view().contains_key(k) {
                            let j = choose|j: int| 0 <= j < old_pairs.len() && #[trigger] old_pairs[j].0 == k;
                            assert(self.pairs()[j].0 == k);
                        }
                        if k == key@ {
                            assert(self.pairs()[n].0 == k);
                        }
                    }
                    assert forall|k: Seq<char>| #[trigger] self.view().contains_key(k) implies self.view()[k] == old(self).view().insert(key@, value)[k] by {
                        let j = choose|j: int| 0 <= j < self.pairs().len() && #[trigger] self.pairs()[j].0 == k;
                        self.lemma_view_at(j);
                        if j != n {
                            assert(old_pairs[j] == self.pairs()[j]);
                            old(self).lemma_view_at(j);
                        }
                    }
                    assert(self.view() =~= old(self).view().insert(key@, value));
                }
            },
        }
    }

    /// The entries, in the order they were first inserted.
    pub fn entries(&self) -> (r: &Vec<(String, usize)>)
        ensures
            r@.map_values(|e: (String, usize)| (e.0@, e.1)) == self.pairs(),
            forall|i: int, j: int|
                0 <= i < self.pairs().len() && 0 <= j < self.pairs().len() && i != j
                    ==> self.pairs()[i].0 != self.pairs()[j].0,
            forall|i: int| 0 <= i < self.pairs().len() ==> self.view().contains_key(#[trigger] self.pairs()[i].0)
                && self.view()[self.pairs()[i].0] == self.pairs()[i].1,
    {
        proof {
            use_type_invariant(self);
            self.lemma_pairs_distinct();
            assert forall|i: int| 0 <= i < self.pairs().len() implies self.view().contains_key(#[trigger] self.pairs()[i].0)
                && self.view()[self.pairs()[i].0] == self.pairs()[i].1 by {
                self.lemma_view_at(i);
            }
        }
        &self.entries
    }
}

/// A set of texts.
#[derive(Debug)]
pub struct StrSet {
    items: Vec<String>,
}

impl StrSet {
    #[verifier::type_invariant]
    spec fn inv(self) -> bool {
        no_dups(self.items@.map_values(|s: String| s@))
    }

    /// The members, in the order they were first inserted.
    pub closed spec fn members(self) -> Seq<Seq<char>> {
        self.items@.map_values(|s: String| s@)
    }

    /// The set of members.
    pub open spec fn view(self) -> Set<Seq<char>> {
        self.members().to_set()
    }

    /// An empty set.
    pub fn new() -> (s: StrSet)
        ensures
            s.members().len() == 0,
            s.view() == Set::<Seq<char>>::empty(),
    {
        let s = StrSet { items: Vec::new() };
        assert(s.view() =~= Set::<Seq<char>>::empty());
        s
    }

    /// `true` when `x` is a member (`HashSet::contains`).
    pub fn contains(&self, x: &str) -> (r: bool)
        ensures
            r == self.view().contains(x@),
    {
        let mut i: usize = 0;
        while i < self.items.len()
            invariant
                i <= self.items@.len(),
                forall|j: int| 0 <= j < i ==> self.members()[j] != x@,
            decreases self.items@.len() - i,
        {
            if str_eq(self.items[i].as_str(), x) {
                assert(self.members()[i as int] == x@);
                return true;
            }
            i = i + 1;
        }
        false
    }

    /// Adds `x`; `false` when it was already a member (`HashSet::insert`).
    pub fn insert(&mut self, x: &str) -> (r: bool)
        ensures
            final(self).view() == old(self).view().insert(x@),
            r == !old(self).view().contains(x@),
    {
        proof {
            use_type_invariant(&*self);
        }
        if self.contains(x) {
            assert(self.view().insert(x@) =~= self.view());
            return false;
        }
        let ghost old_members = self.members();
        let mut items: Vec<String> = Vec::new();
        std::mem::swap(&mut items, &mut self.items);
        items.push(x.to_owned());
        assert(items@.map_values(|s: String| s@) =~= old_members.push(x@));
        assert(!old_members.contains(x@));
        self.items = items;
        assert forall|y: Seq<char>| self.view().contains(y) <==> old(self).view().insert(x@).contains(y) by {
            if y == x@ {
                assert(self.members()[old_members.len() as int] == y);
            } else if old_members.contains(y) {
                let j = choose|j: int| 0 <= j < old_members.len() && old_members[j] == y;
                assert(self.members()[j] == y);
            } else if self.members().contains(y) {
                let j = choose|j: int| 0 <= j < self.members().len() && self.members()[j] == y;
                assert(old_members[j] == y);
            }
        }
        assert(self.view() =~= old(self).view().insert(x@));
        true
    }

    /// The number of members.
    pub fn len(&self) -> (n: usize)
        ensures
            n == self.view().len(),
            n == self.members().len(),
    {
        proof {
            use_type_invariant(self);
            self.members().unique_seq_to_set();
        }
        self.items.len()
    }

    /// The members, in the order they were first inserted.
    pub fn items(&self) -> (r: &Vec<String>)
        ensures
            r@.map_values(|s: String| s@) == self.members(),
    {
        &self.items
    }
}

} // verus!
