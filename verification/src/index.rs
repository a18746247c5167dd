use vstd::prelude::*;

use crate::command::CommandPos;
use crate::keys::{
    compare_keys, key_lt, lemma_key_lt_asymmetric, lemma_key_lt_irreflexive, lemma_key_lt_total,
    lemma_key_lt_transitive, KeyOrder,
};

verus! {

/// One key of the index and where its live command lies.
pub struct IndexEntry {
    pub key: String,
    pub pos: CommandPos,
}

/// The in-memory index of the store: for each key, the position of its live
/// command. Its entries are kept in ascending key order, each key once, so
/// that walking the index visits the keys in the order of `String`, as a
/// `BTreeMap<String, CommandPos>` would. (vstd's specifications of `BTreeMap`
/// hold only for keys that obey its `obeys_cmp`, and vstd gives `String` no
/// order specification, so nothing could be proved of such a map.)
pub struct KeyIndex {
    entries: Vec<IndexEntry>,
    map: Ghost<Map<Seq<char>, CommandPos>>,
}

impl View for KeyIndex {
    type V = Map<Seq<char>, CommandPos>;

    closed spec fn view(&self) -> Map<Seq<char>, CommandPos> {
        self.map@
    }
}

impl KeyIndex {
    /// The keys, in the order in which the index holds them.
    pub closed spec fn keys(&self) -> Seq<Seq<char>> {
        self.entries@.map_values(|e: IndexEntry| e.key@)
    }

    /// The positions, in the order of `keys`.
    pub closed spec fn positions(&self) -> Seq<CommandPos> {
        self.entries@.map_values(|e: IndexEntry| e.pos)
    }

    pub closed spec fn wf(&self) -> bool {
        &&& forall|i: int, j: int|
            0 <= i < j < self.entries@.len() ==> key_lt(
                #[trigger] self.entries@[i].key@,
                #[trigger] self.entries@[j].key@,
            )
        &&& forall|k: Seq<char>|
            self.map@.contains_key(k) <==> exists|i: int|
                0 <= i < self.entries@.len() && #[trigger] self.entries@[i].key@ == k
        &&& forall|i: int|
            0 <= i < self.entries@.len() ==> self.map@[#[trigger] self.entries@[i].key@]
                == self.entries@[i].pos
    }

    /// What every well-formed index promises its users.
    pub proof fn lemma_wf(&self)
        requires
            self.wf(),
        ensures
            self.keys().len() == self.positions().len(),
            self.keys().no_duplicates(),
            forall|i: int, j: int|
                0 <= i < j < self.keys().len() ==> key_lt(
                    #[trigger] self.keys()[i],
                    #[trigger] self.keys()[j],
                ),
            self@.dom() == self.keys().to_set(),
            forall|i: int|
                0 <= i < self.keys().len() ==> self@[#[trigger] self.keys()[i]]
                    == self.positions()[i],
            self@.dom().finite(),
            self@.len() == self.keys().len(),
    {
        assert forall|i: int, j: int|
            0 <= i < self.keys().len() && 0 <= j < self.keys().len() && i != j implies
            self.keys()[i] != self.keys()[j] by {
            if i < j {
                assert(key_lt(self.entries@[i].key@, self.entries@[j].key@));
            } else {
                assert(key_lt(self.entries@[j].key@, self.entries@[i].key@));
            }
            lemma_key_lt_irreflexive(self.keys()[i]);
        }
        assert forall|k: Seq<char>| self@.dom().contains(k) <==> self.keys().to_set().contains(k) by {
            if self@.dom().contains(k) {
                let i = choose|i: int| 0 <= i < self.entries@.len() && self.entries@[i].key@ == k;
                assert(self.keys()[i] == k);
            }
            if self.keys().to_set().contains(k) {
                let i = choose|i: int| 0 <= i < self.keys().len() && self.keys()[i] == k;
                assert(self.entries@[i].key@ == k);
            }
        }
        assert(self@.dom() =~= self.keys().to_set());
        self.keys().unique_seq_to_set();
    }

    pub fn new() -> (r: KeyIndex)
        ensures
            r.wf(),
            r@ == Map::<Seq<char>, CommandPos>::empty(),
            r.keys() == Seq::<Seq<char>>::empty(),
    {
        let r = KeyIndex { entries: Vec::new(), map: Ghost(Map::empty()) };
        assert(r.keys() =~= Seq::<Seq<char>>::empty());
        r
    }

    pub fn len(&self) -> (n: usize)
        requires
            self.wf(),
        ensures
            n == self.keys().len(),
            n == self@.len(),
    {
        proof {
            self.lemma_wf();
        }
        self.entries.len()
    }

    /// The position held at the `i`-th place of the key order.
    pub fn pos_at(&self, i: usize) -> (p: CommandPos)
        requires
            self.wf(),
            i < self.keys().len(),
        ensures
            p == self.positions()[i as int],
            p == self@[self.keys()[i as int]],
    {
        proof {
            self.lemma_wf();
        }
        self.entries[i].pos
    }

    /// The positions of all keys, in key order.
    pub fn all_positions(&self) -> (r: Vec<CommandPos>)
        requires
            self.wf(),
        ensures
            r@ == self.positions(),
    {
        let mut r: Vec<CommandPos> = Vec::new();
        let mut i: usize = 0;
        while i < self.entries.len()
            invariant
                i <= self.entries@.len(),
                r@ == self.positions().take(i as int),
            decreases self.entries@.len() - i,
        {
            r.push(self.entries[i].pos);
            assert(r@ =~= self.positions().take(i + 1));
            i = i + 1;
        }
        assert(r@ =~= self.positions());
        r
    }

    /// The first place whose key is not below `key`.
    fn find(&self, key: &str) -> (r: (usize, bool))
        requires
            self.wf(),
        ensures
            r.0 <= self.entries@.len(),
            forall|j: int| 0 <= j < r.0 ==> key_lt(#[trigger] self.entries@[j].key@, key@),
            r.0 < self.entries@.len() ==> !key_lt(self.entries@[r.0 as int].key@, key@),
            r.1 <==> (r.0 < self.entries@.len() && self.entries@[r.0 as int].key@ == key@),
            r.1 <==> self@.contains_key(key@),
    {
        let mut i: usize = 0;
        while i < self.entries.len()
            invariant
                self.wf(),
                i <= self.entries@.len(),
                forall|j: int| 0 <= j < i ==> key_lt(#[trigger] self.entries@[j].key@, key@),
            decreases self.entries@.len() - i,
        {
            match compare_keys(self.entries[i].key.as_str(), key) {
                KeyOrder::Less => {},
                KeyOrder::Equal => {
                    assert(self.map@.contains_key(self.entries@[i as int].key@));
                    return (i, true);
                },
                KeyOrder::Greater => {
                    proof {
                        lemma_key_lt_asymmetric(self.entries@[i as int].key@, key@);
                        self.lemma_absent_from(i as int, key@);
                    }
                    return (i, false);
                },
            }
            i = i + 1;
        }
        proof {
            if self.map@.contains_key(key@) {
                let j = choose|j: int| 0 <= j < self.entries@.len() && self.entries@[j].key@ == key@;
                lemma_key_lt_irreflexive(key@);
            }
        }
        (i, false)
    }

    /// A key strictly below the key at place `i`, and above all keys before it, is absent.
    proof fn lemma_absent_from(&self, i: int, key: Seq<char>)
        requires
            self.wf(),
            0 <= i < self.entries@.len(),
            key_lt(key, self.entries@[i].key@),
            forall|j: int| 0 <= j < i ==> key_lt(#[trigger] self.entries@[j].key@, key),
        ensures
            !self.map@.contains_key(key),
    {
        if self.map@.contains_key(key) {
            let j = choose|j: int| 0 <= j < self.entries@.len() && self.entries@[j].key@ == key;
            if j < i {
                lemma_key_lt_irreflexive(key);
            } else if j == i {
                lemma_key_lt_irreflexive(key);
            } else {
                assert(key_lt(self.entries@[i].key@, self.entries@[j].key@));
                lemma_key_lt_asymmetric(key, self.entries@[i].key@);
            }
        }
    }

    /// The position of `key`, if the index holds it.
    pub fn get(&self, key: &str) -> (r: Option<CommandPos>)
        requires
            self.wf(),
        ensures
            r == (if self@.contains_key(key@) {
                Some(self@[key@])
            } else {
                None
            }),
    {
        let (i, found) = self.find(key);
        if found {
            Some(self.entries[i].pos)
        } else {
            None
        }
    }

    /// Sets the position of `key`, returning the position it had.
    pub fn insert(&mut self, key: String, pos: CommandPos) -> (r: Option<CommandPos>)
        requires
            old(self).wf(),
        ensures
            final(self).wf(),
            final(self)@ == old(self)@.insert(key@, pos),
            r == (if old(self)@.contains_key(key@) {
                Some(old(self)@[key@])
            } else {
                None
            }),
    {
        let (i, found) = self.find(key.as_str());
        let ghost old_entries = self.entries@;
        if found {
            let prev = self.entries[i].pos;
            self.entries.set(i, IndexEntry { key, pos });
            self.map = Ghost(self.map@.insert(self.entries@[i as int].key@, pos));
            proof {
                assert forall|k: Seq<char>|
                    self.map@.contains_key(k) <==> exists|j: int|
                        0 <= j < self.entries@.len() && #[trigger] self.entries@[j].key@ == k by {
                    if self.map@.contains_key(k) && k != self.entries@[i as int].key@ {
                        let j = choose|j: int| 0 <= j < old_entries.len() && old_entries[j].key@ == k;
                        assert(self.entries@[j].key@ == k);
                    }
                    if exists|j: int| 0 <= j < self.entries@.len() && #[trigger] self.entries@[j].key@ == k {
                        let j = choose|j: int| 0 <= j < self.entries@.len() && self.entries@[j].key@ == k;
                        assert(old_entries[j].key@ == k);
                    }
                }
                assert forall|a: int, b: int|
                    0 <= a < b < self.entries@.len() implies key_lt(
                        #[trigger] self.entries@[a].key@,
                        #[trigger] self.entries@[b].key@,
                    ) by {
                    assert(key_lt(old_entries[a].key@, old_entries[b].key@));
                }
                assert forall|j: int|
                    0 <= j < self.entries@.len() implies self.map@[#[trigger] self.entries@[j].key@]
                        == self.entries@[j].pos by {
                    if j != i {
                        assert(key_lt(old_entries[j].key@, old_entries[i as int].key@)
                            || key_lt(old_entries[i as int].key@, old_entries[j].key@));
                        if self.entries@[j].key@ == self.entries@[i as int].key@ {
                            lemma_key_lt_irreflexive(old_entries[j].key@);
                        }
                    }
                }
            }
            Some(prev)
        } else {
            let ghost k = key@;
            self.entries.insert(i, IndexEntry { key, pos });
            self.map = Ghost(self.map@.insert(k, pos));
            proof {
                assert(self.entries@[i as int].key@ == k);
                assert forall|j: int| 0 <= j < self.entries@.len() implies
                    (#[trigger] self.entries@[j]) == (if j < i {
                        old_entries[j]
                    } else if j == i {
                        self.entries@[i as int]
                    } else {
                        old_entries[j - 1]
                    }) by {}
                assert forall|a: int, b: int|
                    0 <= a < b < self.entries@.len() implies key_lt(
                        #[trigger] self.entries@[a].key@,
                        #[trigger] self.entries@[b].key@,
                    ) by {
                    if b < i {
                        assert(key_lt(old_entries[a].key@, old_entries[b].key@));
                    } else if b == i {
                        assert(key_lt(old_entries[a].key@, k));
                    } else if a == i {
                        assert(!key_lt(old_entries[i as int].key@, k));
                        lemma_key_lt_total(old_entries[i as int].key@, k);
                        if b - 1 > i {
                            assert(key_lt(old_entries[i as int].key@, old_entries[b - 1].key@));
                            lemma_key_lt_transitive(k, old_entries[i as int].key@, old_entries[b - 1].key@);
                        }
                    } else if a < i {
                        assert(key_lt(old_entries[a].key@, k));
                        assert(!key_lt(old_entries[i as int].key@, k));
                        lemma_key_lt_total(old_entries[i as int].key@, k);
                        if b - 1 > i {
                            assert(key_lt(old_entries[i as int].key@, old_entries[b - 1].key@));
                            lemma_key_lt_transitive(k, old_entries[i as int].key@, old_entries[b - 1].key@);
                        }
                        lemma_key_lt_transitive(old_entries[a].key@, k, old_entries[b - 1].key@);
                    } else {
                        assert(key_lt(old_entries[a - 1].key@, old_entries[b - 1].key@));
                    }
                }
                assert forall|kk: Seq<char>|
                    self.map@.contains_key(kk) <==> exists|j: int|
                        0 <= j < self.entries@.len() && #[trigger] self.entries@[j].key@ == kk by {
                    if self.map@.contains_key(kk) && kk != k {
                        let j = choose|j: int| 0 <= j < old_entries.len() && old_entries[j].key@ == kk;
                        if j < i {
                            assert(self.entries@[j].key@ == kk);
                        } else {
                            assert(self.entries@[j + 1].key@ == kk);
                        }
                    }
                    if exists|j: int| 0 <= j < self.entries@.len() && #[trigger] self.entries@[j].key@ == kk {
                        let j = choose|j: int| 0 <= j < self.entries@.len() && self.entries@[j].key@ == kk;
                        if j < i {
                            assert(old_entries[j].key@ == kk);
                        } else if j > i {
                            assert(old_entries[j - 1].key@ == kk);
                        }
                    }
                }
                assert forall|j: int|
                    0 <= j < self.entries@.len() implies self.map@[#[trigger] self.entries@[j].key@]
                        == self.entries@[j].pos by {
                    if j < i {
                        if old_entries[j].key@ == k {
                            lemma_key_lt_irreflexive(k);
                        }
                    } else if j > i {
                        if old_entries[j - 1].key@ == k {
                            if j - 1 == i {
                                lemma_key_lt_irreflexive(k);
                            }
                            assert(!key_lt(old_entries[i as int].key@, k));
                            if j - 1 > i {
                                assert(key_lt(old_entries[i as int].key@, old_entries[j - 1].key@));
                            }
                        }
                    }
                }
            }
            None
        }
    }

    /// Drops `key`, returning the position it had.
    pub fn remove(&mut self, key: &str) -> (r: Option<CommandPos>)
        requires
            old(self).wf(),
        ensures
            final(self).wf(),
            final(self)@ == old(self)@.remove(key@),
            r == (if old(self)@.contains_key(key@) {
                Some(old(self)@[key@])
            } else {
                None
            }),
    {
        let (i, found) = self.find(key);
        if !found {
            proof {
                assert(self.map@.remove(key@) =~= self.map@);
            }
            return None;
        }
        let ghost old_entries = self.entries@;
        let entry = self.entries.remove(i);
        self.map = Ghost(self.map@.remove(key@));
        proof {
            assert forall|j: int| 0 <= j < self.entries@.len() implies
                (#[trigger] self.entries@[j]) == (if j < i {
                    old_entries[j]
                } else {
                    old_entries[j + 1]
                }) by {}
            assert forall|a: int, b: int|
                0 <= a < b < self.entries@.len() implies key_lt(
                    #[trigger] self.entries@[a].key@,
                    #[trigger] self.entries@[b].key@,
                ) by {
                if b < i {
                    assert(key_lt(old_entries[a].key@, old_entries[b].key@));
                } else if a < i {
                    assert(key_lt(old_entries[a].key@, old_entries[b + 1].key@));
                } else {
                    assert(key_lt(old_entries[a + 1].key@, old_entries[b + 1].key@));
                }
            }
            assert forall|j: int| 0 <= j < old_entries.len() && j != i implies
                old_entries[j].key@ != key@ by {
                if j < i {
                    assert(key_lt(old_entries[j].key@, old_entries[i as int].key@));
                } else {
                    assert(key_lt(old_entries[i as int].key@, old_entries[j].key@));
                }
                lemma_key_lt_irreflexive(key@);
            }
            assert forall|kk: Seq<char>|
                self.map@.contains_key(kk) <==> exists|j: int|
                    0 <= j < self.entries@.len() && #[trigger] self.entries@[j].key@ == kk by {
                if self.map@.contains_key(kk) {
                    let j = choose|j: int| 0 <= j < old_entries.len() && old_entries[j].key@ == kk;
                    if j < i {
                        assert(self.entries@[j].key@ == kk);
                    } else {
                        assert(self.entries@[j - 1].key@ == kk);
                    }
                }
                if exists|j: int| 0 <= j < self.entries@.len() && #[trigger] self.entries@[j].key@ == kk {
                    let j = choose|j: int| 0 <= j < self.entries@.len() && self.entries@[j].key@ == kk;
                    if j < i {
                        assert(old_entries[j].key@ == kk);
                    } else {
                        assert(old_entries[j + 1].key@ == kk);
                    }
                }
            }
            assert forall|j: int|
                0 <= j < self.entries@.len() implies self.map@[#[trigger] self.entries@[j].key@]
                    == self.entries@[j].pos by {
                if j < i {
                    assert(old_entries[j].key@ != key@);
                } else {
                    assert(old_entries[j + 1].key@ != key@);
                }
            }
        }
        Some(entry.pos)
    }

    /// Moves the key at the `i`-th place of the key order to position `pos`.
    pub fn set_pos_at(&mut self, i: usize, pos: CommandPos)
        requires
            old(self).wf(),
            i < old(self).keys().len(),
        ensures
            final(self).wf(),
            final(self).keys() == old(self).keys(),
            final(self).positions() == old(self).positions().update(i as int, pos),
            final(self)@ == old(self)@.insert(old(self).keys()[i as int], pos),
    {
        let ghost old_entries = self.entries@;
        let key = self.entries[i].key.clone();
        self.entries.set(i, IndexEntry { key, pos });
        self.map = Ghost(self.map@.insert(old_entries[i as int].key@, pos));
        proof {
            assert forall|a: int, b: int|
                0 <= a < b < self.entries@.len() implies key_lt(
                    #[trigger] self.entries@[a].key@,
                    #[trigger] self.entries@[b].key@,
                ) by {
                assert(key_lt(old_entries[a].key@, old_entries[b].key@));
            }
            assert forall|kk: Seq<char>|
                self.map@.contains_key(kk) <==> exists|j: int|
                    0 <= j < self.entries@.len() && #[trigger] self.entries@[j].key@ == kk by {
                if self.map@.contains_key(kk) {
                    let j = choose|j: int| 0 <= j < old_entries.len() && old_entries[j].key@ == kk;
                    assert(self.entries@[j].key@ == kk);
                }
                if exists|j: int| 0 <= j < self.entries@.len() && #[trigger] self.entries@[j].key@ == kk {
                    let j = choose|j: int| 0 <= j < self.entries@.len() && self.entries@[j].key@ == kk;
                    assert(old_entries[j].key@ == kk);
                }
            }
            assert forall|j: int|
                0 <= j < self.entries@.len() implies self.map@[#[trigger] self.entries@[j].key@]
                    == self.entries@[j].pos by {
                if j != i {
                    if j < i {
                        assert(key_lt(old_entries[j].key@, old_entries[i as int].key@));
                    } else {
                        assert(key_lt(old_entries[i as int].key@, old_entries[j].key@));
                    }
                    if old_entries[j].key@ == old_entries[i as int].key@ {
                        lemma_key_lt_irreflexive(old_entries[j].key@);
                    }
                }
            }
            assert(self.keys() =~= old(self).keys());
            assert(self.positions() =~= old(self).positions().update(i as int, pos));
        }
    }
}

} // verus!
