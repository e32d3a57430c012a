//! A small map from pane names to values, held as a list of distinct keys.
//!
//! The mirror keeps three of these. Its view is a `Map` from the pane's characters to the value's
//! view; the list never holds one pane twice.

use std::collections::BTreeSet;
use vstd::prelude::*;

use crate::text::{chars_of, same_chars};

verus! {

/// What a set of pane names holds, as characters.
pub uninterp spec fn names_in(set: BTreeSet<String>) -> Set<Seq<char>>;

/// `BTreeSet::contains`: whether `name` is in `set`.
///
/// A `BTreeSet<String>` orders and compares its members by their bytes, so it holds `name` exactly
/// when it holds a string with the same characters.
#[verifier::external_body]
pub(crate) fn set_holds(set: &BTreeSet<String>, name: &String) -> (r: bool)
    ensures
        r == names_in(*set).contains(name@),
{
    set.contains(name)
}

/// `BTreeSet::new`: a set of pane names holding none.
#[verifier::external_body]
fn no_names() -> (set: BTreeSet<String>)
    ensures
        names_in(set) == Set::<Seq<char>>::empty(),
{
    BTreeSet::new()
}

/// `BTreeSet::insert`: the set now holds `name` as well as what it held.
///
/// A `BTreeSet<String>` compares its members by their bytes, so a name with the same characters
/// as one already held leaves the set as it was, which the union states too.
#[verifier::external_body]
fn add_name(set: &mut BTreeSet<String>, name: String)
    ensures
        names_in(*final(set)) == names_in(*old(set)).insert(name@),
{
    let _ = set.insert(name);
}

/// The names in `names`, as a set.
pub open spec fn names_of(names: Seq<String>) -> Set<Seq<char>> {
    Set::new(|s: Seq<char>| exists|i: int| 0 <= i < names.len() && #[trigger] names[i]@ == s)
}

/// The set of pane names that `names` lists: what [`crate::mirror::Mirror::retain`] keeps.
pub fn pane_names(names: &Vec<String>) -> (set: BTreeSet<String>)
    ensures
        names_in(set) == names_of(names@),
{
    let mut set = no_names();
    let mut i: usize = 0;
    while i < names.len()
        invariant
            i <= names@.len(),
            names_in(set) == names_of(names@.take(i as int)),
        decreases names@.len() - i,
    {
        let ghost before = names_in(set);
        add_name(&mut set, names[i].clone());
        proof {
            let t = names@.take(i + 1);
            assert forall|s: Seq<char>| #[trigger] names_of(t).contains(s) == before.insert(
                names@[i as int]@,
            ).contains(s) by {
                if names_of(t).contains(s) {
                    let k = choose|k: int| 0 <= k < t.len() && #[trigger] t[k]@ == s;
                    if k < i {
                        assert(names@.take(i as int)[k] == t[k]);
                    }
                }
                if before.contains(s) {
                    let k = choose|k: int|
                        0 <= k < i && #[trigger] names@.take(i as int)[k]@ == s;
                    assert(t[k] == names@.take(i as int)[k]);
                }
                if s == names@[i as int]@ {
                    assert(t[i as int] == names@[i as int]);
                }
            }
            assert(names_of(t) =~= before.insert(names@[i as int]@));
        }
        i = i + 1;
    }
    assert(names@.take(names@.len() as int) =~= names@);
    set
}

pub struct PaneTable<V> {
    entries: Vec<(String, V)>,
}

impl<V> PaneTable<V> {
    /// No pane is listed twice in `es`.
    spec fn distinct(es: Seq<(String, V)>) -> bool {
        forall|i: int, j: int|
            0 <= i < es.len() && 0 <= j < es.len() && i != j ==> #[trigger] es[i].0@
                != #[trigger] es[j].0@
    }

    /// No pane is listed twice, in any table there is.
    #[verifier::type_invariant]
    spec fn wf(self) -> bool {
        Self::distinct(self.entries@)
    }
}

impl<V: View> PaneTable<V> {
    pub closed spec fn has(self, k: Seq<char>) -> bool {
        exists|i: int| 0 <= i < self.entries@.len() && #[trigger] self.entries@[i].0@ == k
    }

    pub closed spec fn index_of(self, k: Seq<char>) -> int {
        choose|i: int| 0 <= i < self.entries@.len() && #[trigger] self.entries@[i].0@ == k
    }


    pub closed spec fn map(self) -> Map<Seq<char>, V::V> {
        Map::new(|k: Seq<char>| self.has(k), |k: Seq<char>| self.entries@[self.index_of(k)].1@)
    }

    proof fn lemma_index_of(self, k: Seq<char>, i: int)
        requires
            self.wf(),
            0 <= i < self.entries@.len(),
            self.entries@[i].0@ == k,
        ensures
            self.has(k),
            self.index_of(k) == i,
            self.map().dom().contains(k),
            self.map()[k] == self.entries@[i].1@,
    {
        assert(self.has(k));
        let j = self.index_of(k);
        assert(self.entries@[j].0@ == k);
    }

    pub fn new() -> (t: Self)
        ensures
            t.map() == Map::<Seq<char>, V::V>::empty(),
    {
        let t = PaneTable { entries: Vec::new() };
        assert(t.map() =~= Map::<Seq<char>, V::V>::empty());
        t
    }

    fn find(&self, key: &str) -> (r: Option<usize>)
        requires
            self.wf(),
        ensures
            r matches Some(i) ==> i < self.entries@.len() && self.entries@[i as int].0@ == key@,
            r is None ==> !self.map().dom().contains(key@),
    {
        let k = chars_of(key);
        let mut i: usize = 0;
        while i < self.entries.len()
            invariant
                self.wf(),
                k@ == key@,
                i <= self.entries@.len(),
                forall|j: int| 0 <= j < i ==> self.entries@[j].0@ != key@,
            decreases self.entries@.len() - i,
        {
            let name = chars_of(self.entries[i].0.as_str());
            if same_chars(&name, 0, name.len(), &k) {
                assert(name@.subrange(0, name@.len() as int) =~= name@);
                return Some(i);
            }
            assert(name@.subrange(0, name@.len() as int) =~= name@);
            i = i + 1;
        }
        None
    }

    /// The value held for `key`, if any.
    pub fn get(&self, key: &str) -> (r: Option<&V>)
        ensures
            r matches Some(v) ==> self.map().dom().contains(key@) && v@ == self.map()[key@],
            r is None ==> !self.map().dom().contains(key@),
    {
        proof {
            use_type_invariant(self);
        }
        match self.find(key) {
            Some(i) => {
                proof {
                    self.lemma_index_of(key@, i as int);
                }
                Some(&self.entries[i].1)
            },
            None => None,
        }
    }

    /// Hold `v` for `key`, in place of anything held before.
    pub fn insert(&mut self, key: &str, v: V)
        ensures
            final(self).map() == old(self).map().insert(key@, v@),
    {
        proof {
            use_type_invariant(&*self);
        }
        let ghost before = self.map();
        match self.find(key) {
            Some(i) => {
                proof {
                    self.lemma_index_of(key@, i as int);
                }
                let name = self.entries[i].0.clone();
                let ghost old_entries = self.entries@;
                let mut es: Vec<(String, V)> = Vec::new();
                std::mem::swap(&mut es, &mut self.entries);
                es.set(i, (name, v));
                assert(Self::distinct(es@)) by {
                    assert forall|a: int, b: int|
                        0 <= a < es@.len() && 0 <= b < es@.len() && a != b implies #[trigger] es@[a].0@
                        != #[trigger] es@[b].0@ by {
                        assert(es@[a].0@ == old_entries[a].0@);
                        assert(es@[b].0@ == old_entries[b].0@);
                    }
                }
                self.entries = es;
                proof {
                    assert forall|k2: Seq<char>| #[trigger]
                        self.map().dom().contains(k2) == before.insert(key@, v@).dom().contains(
                            k2,
                        ) by {
                        if before.dom().contains(k2) {
                            let j = choose|j: int|
                                0 <= j < old_entries.len() && #[trigger] old_entries[j].0@ == k2;
                            assert(self.entries@[j].0@ == k2);
                        }
                        if self.has(k2) {
                            let j = choose|j: int|
                                0 <= j < self.entries@.len() && #[trigger] self.entries@[j].0@
                                    == k2;
                            assert(old_entries[j].0@ == k2);
                        }
                    }
                    assert forall|k2: Seq<char>| #[trigger]
                        self.map().dom().contains(k2) implies self.map()[k2] == before.insert(
                        key@,
                        v@,
                    )[k2] by {
                        let j = choose|j: int|
                            0 <= j < self.entries@.len() && #[trigger] self.entries@[j].0@ == k2;
                        self.lemma_index_of(k2, j);
                        if j != i {
                            assert(old_entries[j] == self.entries@[j]);
                            assert(old_entries[j].0@ == k2);
                            assert(k2 != key@);
                            assert(before.dom().contains(k2));
                            let jj = choose|jj: int|
                                0 <= jj < old_entries.len() && #[trigger] old_entries[jj].0@
                                    == k2;
                            assert(old_entries[jj].0@ == k2);
                            assert(jj == j);
                        }
                    }
                    assert(self.map() =~= before.insert(key@, v@));
                }
            },
            None => {
                let name = String::from_str(key);
                let ghost old_entries = self.entries@;
                let mut es: Vec<(String, V)> = Vec::new();
                std::mem::swap(&mut es, &mut self.entries);
                es.push((name, v));
                proof {
                    let n = old_entries.len() as int;
                    assert(es@[n].0@ == key@);
                    assert(Self::distinct(es@)) by {
                        assert forall|a: int, b: int|
                            0 <= a < es@.len() && 0 <= b < es@.len() && a != b implies #[trigger] es@[a].0@
                            != #[trigger] es@[b].0@ by {
                            if a == n {
                                assert(!before.dom().contains(key@));
                                assert(old_entries[b].0@ == es@[b].0@);
                                if old_entries[b].0@ == key@ {
                                    assert(old(self).has(key@));
                                }
                            } else if b == n {
                                assert(old_entries[a].0@ == es@[a].0@);
                                if old_entries[a].0@ == key@ {
                                    assert(old(self).has(key@));
                                }
                            } else {
                                assert(old_entries[a] == es@[a]);
                                assert(old_entries[b] == es@[b]);
                            }
                        }
                    }
                }
                self.entries = es;
                proof {
                    let n = old_entries.len() as int;
                    self.lemma_index_of(key@, n);
                    assert forall|k2: Seq<char>| #[trigger]
                        self.map().dom().contains(k2) == before.insert(key@, v@).dom().contains(
                            k2,
                        ) by {
                        if before.dom().contains(k2) {
                            let j = choose|j: int|
                                0 <= j < old_entries.len() && #[trigger] old_entries[j].0@ == k2;
                            assert(self.entries@[j].0@ == k2);
                        }
                        if self.has(k2) {
                            let j = choose|j: int|
                                0 <= j < self.entries@.len() && #[trigger] self.entries@[j].0@
                                    == k2;
                            if j < n {
                                assert(old_entries[j].0@ == k2);
                            }
                        }
                    }
                    assert forall|k2: Seq<char>| #[trigger]
                        self.map().dom().contains(k2) implies self.map()[k2] == before.insert(
                        key@,
                        v@,
                    )[k2] by {
                        let j = choose|j: int|
                            0 <= j < self.entries@.len() && #[trigger] self.entries@[j].0@ == k2;
                        self.lemma_index_of(k2, j);
                        if j != n {
                            assert(old_entries[j] == self.entries@[j]);
                            old(self).lemma_index_of(k2, j);
                        }
                    }
                    assert(self.map() =~= before.insert(key@, v@));
                }
            },
        }
    }

    /// Keep only the panes named in `alive`.
    pub fn retain(&mut self, alive: &BTreeSet<String>)
        ensures
            final(self).map() == old(self).map().restrict(names_in(*alive)),
    {
        proof {
            use_type_invariant(&*self);
        }
        let ghost before = self.map();
        let ghost old_entries = self.entries@;
        let ghost n = old_entries.len() as int;
        let ghost names = names_in(*alive);
        let mut rest: Vec<(String, V)> = Vec::new();
        std::mem::swap(&mut rest, &mut self.entries);
        let mut kept: Vec<(String, V)> = Vec::new();
        let ghost mut src: Seq<int> = Seq::empty();
        assert(rest@ =~= old_entries.take(n));
        while rest.len() > 0
            invariant
                old(self).wf(),
                old_entries == old(self).entries@,
                n == old_entries.len(),
                names == names_in(*alive),
                rest@.len() <= n,
                rest@ == old_entries.take(rest@.len() as int),
                kept@.len() == src.len(),
                forall|a: int|
                    #![trigger src[a]]
                    0 <= a < src.len() ==> rest@.len() <= src[a] < n && kept@[a]
                        == old_entries[src[a]] && names.contains(kept@[a].0@),
                forall|a: int, b: int|
                    #![trigger src[a], src[b]]
                    0 <= a < b < src.len() ==> src[a] > src[b],
                forall|j: int|
                    #![trigger old_entries[j]]
                    rest@.len() <= j < n && names.contains(old_entries[j].0@) ==> exists|a: int|
                        0 <= a < src.len() && #[trigger] src[a] == j,
            decreases rest@.len(),
        {
            let ghost r = rest@.len() as int;
            assert(rest@[r - 1] == old_entries[r - 1]);
            let e = rest.pop().unwrap();
            assert(rest@ =~= old_entries.take(r - 1));
            if set_holds(alive, &e.0) {
                kept.push(e);
                proof {
                    let s0 = src;
                    src = src.push(r - 1);
                    assert forall|j: int|
                        r - 1 <= j < n && names.contains(
                            #[trigger] old_entries[j].0@,
                        ) implies exists|a: int| 0 <= a < src.len() && #[trigger] src[a] == j by {
                        if j == r - 1 {
                            assert(src[s0.len() as int] == j);
                        } else {
                            let a = choose|a: int| 0 <= a < s0.len() && #[trigger] s0[a] == j;
                            assert(src[a] == j);
                        }
                    }
                }
            }
        }
        assert(Self::distinct(kept@)) by {
            assert forall|a: int, b: int|
                0 <= a < kept@.len() && 0 <= b < kept@.len() && a != b implies #[trigger] kept@[a].0@
                != #[trigger] kept@[b].0@ by {
                assert(src[a] != src[b]);
                assert(kept@[a] == old_entries[src[a]]);
                assert(kept@[b] == old_entries[src[b]]);
            }
        }
        self.entries = kept;
        proof {
            let want = before.restrict(names);
            assert forall|k: Seq<char>| #[trigger]
                self.map().dom().contains(k) == want.dom().contains(k) by {
                if self.has(k) {
                    let a = choose|a: int|
                        0 <= a < self.entries@.len() && #[trigger] self.entries@[a].0@ == k;
                    assert(self.entries@[a] == old_entries[src[a]]);
                    old(self).lemma_index_of(k, src[a]);
                }
                if want.dom().contains(k) {
                    let j = choose|j: int| 0 <= j < n && #[trigger] old_entries[j].0@ == k;
                    assert(names.contains(old_entries[j].0@));
                    let a = choose|a: int| 0 <= a < src.len() && #[trigger] src[a] == j;
                    assert(self.entries@[a] == old_entries[j]);
                    assert(self.entries@[a].0@ == k);
                }
            }
            assert forall|k: Seq<char>| #[trigger]
                self.map().dom().contains(k) implies self.map()[k] == want[k] by {
                let a = choose|a: int|
                    0 <= a < self.entries@.len() && #[trigger] self.entries@[a].0@ == k;
                self.lemma_index_of(k, a);
                assert(self.entries@[a] == old_entries[src[a]]);
                old(self).lemma_index_of(k, src[a]);
            }
            assert(self.map() =~= want);
        }
    }
}

} // verus!
