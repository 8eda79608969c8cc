//! The deadlines of keys: a map from key to the instant at which the key expires.
use vstd::prelude::*;
use vstd::string::*;

use crate::text::strings_view;

verus! {

/// A map from keys to deadlines, kept as a list of entries with distinct keys.
pub struct ExpiryMap {
    entries: Vec<(String, i128)>,
    contents: Ghost<Map<Seq<char>, i128>>,
}

impl View for ExpiryMap {
    type V = Map<Seq<char>, i128>;

    closed spec fn view(&self) -> Map<Seq<char>, i128> {
        self.contents@
    }
}

/// The keys whose deadline lies before `now`.
pub open spec fn keys_due_before(m: Map<Seq<char>, i128>, now: i128) -> Set<Seq<char>> {
    Set::new(|k: Seq<char>| m.contains_key(k) && m[k] < now)
}

impl ExpiryMap {
    /// The entries hold each key once, and hold exactly the map's keys and deadlines.
    pub closed spec fn wf(&self) -> bool {
        let es = self.entries@;
        let m = self.contents@;
        &&& m.dom().finite()
        &&& m.len() == es.len()
        &&& forall|i: int| 0 <= i < es.len() ==> #[trigger] m.contains_key(es[i].0@) && m[es[i].0@]
            == es[i].1
        &&& forall|k: Seq<char>| #[trigger]
            m.contains_key(k) ==> exists|i: int| 0 <= i < es.len() && es[i].0@ == k
        &&& forall|i: int, j: int|
            0 <= i < es.len() && 0 <= j < es.len() && i != j ==> es[i].0@ != es[j].0@
    }

    /// An empty map.
    pub fn new() -> (r: Self)
        ensures
            r.wf(),
            r@ == Map::<Seq<char>, i128>::empty(),
    {
        ExpiryMap { entries: Vec::new(), contents: Ghost(Map::empty()) }
    }

    /// The number of keys.
    pub fn len(&self) -> (r: usize)
        requires
            self.wf(),
        ensures
            r == self@.len(),
    {
        self.entries.len()
    }

    /// Where the entry of `key` stands.
    fn find(&self, key: &String) -> (r: Option<usize>)
        requires
            self.wf(),
        ensures
            match r {
                Some(i) => i < self.entries@.len() && self.entries@[i as int].0@ == key@,
                None => !self@.contains_key(key@),
            },
    {
        let mut i: usize = 0;
        while i < self.entries.len()
            invariant
                i <= self.entries@.len(),
                forall|j: int| 0 <= j < i ==> self.entries@[j].0@ != key@,
            decreases self.entries@.len() - i,
        {
            if self.entries[i].0 == *key {
                return Some(i);
            }
            i = i + 1;
        }
        None
    }

    /// The deadline of `key`, if it has one.
    pub fn get(&self, key: &str) -> (r: Option<i128>)
        requires
            self.wf(),
        ensures
            match r {
                Some(d) => self@.contains_key(key@) && self@[key@] == d,
                None => !self@.contains_key(key@),
            },
    {
        let k = String::from_str(key);
        match self.find(&k) {
            Some(i) => {
                assert(self.contents@.contains_key(self.entries@[i as int].0@));
                Some(self.entries[i].1)
            },
            None => None,
        }
    }

    /// Sets the deadline of `key`.
    pub fn insert(&mut self, key: String, deadline: i128)
        requires
            old(self).wf(),
        ensures
            final(self).wf(),
            final(self)@ == old(self)@.insert(key@, deadline),
    {
        let ghost k = key@;
        let ghost m = self.contents@.insert(k, deadline);
        match self.find(&key) {
            Some(i) => {
                self.entries.set(i, (key, deadline));
                self.contents = Ghost(m);
                assert(self.contents@.dom() =~= old(self).contents@.dom());
                assert forall|k2: Seq<char>| #[trigger]
                    self.contents@.contains_key(k2) implies exists|j: int|
                    0 <= j < self.entries@.len() && self.entries@[j].0@ == k2 by {
                    if k2 != k {
                        let j = choose|j: int|
                            0 <= j < old(self).entries@.len() && old(self).entries@[j].0@ == k2;
                        assert(self.entries@[j] == old(self).entries@[j]);
                    } else {
                        assert(self.entries@[i as int].0@ == k2);
                    }
                }
            },
            None => {
                self.entries.push((key, deadline));
                self.contents = Ghost(m);
                assert forall|k2: Seq<char>| #[trigger]
                    self.contents@.contains_key(k2) implies exists|j: int|
                    0 <= j < self.entries@.len() && self.entries@[j].0@ == k2 by {
                    if k2 != k {
                        let j = choose|j: int|
                            0 <= j < old(self).entries@.len() && old(self).entries@[j].0@ == k2;
                        assert(self.entries@[j] == old(self).entries@[j]);
                    } else {
                        assert(self.entries@[old(self).entries@.len() as int].0@ == k2);
                    }
                }
                assert forall|j: int| 0 <= j < old(self).entries@.len() implies #[trigger] self.entries@[j]
                    == old(self).entries@[j] by {}
            },
        }
    }

    /// Removes the deadline of `key`, if it has one.
    pub fn remove(&mut self, key: &str)
        requires
            old(self).wf(),
        ensures
            final(self).wf(),
            final(self)@ == old(self)@.remove(key@),
    {
        let k = String::from_str(key);
        match self.find(&k) {
            Some(i) => {
                let ghost es = self.entries@;
                let ghost m = self.contents@.remove(key@);
                self.entries.remove(i);
                self.contents = Ghost(m);
                assert forall|j: int| 0 <= j < self.entries@.len() implies #[trigger] self.entries@[j]
                    == (if j < i {
                    es[j]
                } else {
                    es[j + 1]
                }) by {}
                assert forall|k2: Seq<char>| #[trigger]
                    self.contents@.contains_key(k2) implies exists|j: int|
                    0 <= j < self.entries@.len() && self.entries@[j].0@ == k2 by {
                    let j = choose|j: int| 0 <= j < es.len() && es[j].0@ == k2;
                    assert(j != i);
                    if j < i {
                        assert(self.entries@[j] == es[j]);
                    } else {
                        assert(self.entries@[j - 1] == es[j]);
                    }
                }
                assert forall|a: int| 0 <= a < self.entries@.len() implies #[trigger]
                    self.contents@.contains_key(self.entries@[a].0@)
                    && self.contents@[self.entries@[a].0@] == self.entries@[a].1 by {
                    if a < i {
                        assert(self.entries@[a] == es[a]);
                    } else {
                        assert(self.entries@[a] == es[a + 1]);
                    }
                }
                assert forall|a: int, b: int|
                    0 <= a < self.entries@.len() && 0 <= b < self.entries@.len() && a != b implies self.entries@[a].0@
                    != self.entries@[b].0@ by {
                    let a2 = if a < i {
                        a
                    } else {
                        a + 1
                    };
                    let b2 = if b < i {
                        b
                    } else {
                        b + 1
                    };
                    assert(self.entries@[a] == es[a2]);
                    assert(self.entries@[b] == es[b2]);
                }
            },
            None => {
                assert(self.contents@.remove(key@) =~= self.contents@);
            },
        }
    }

    /// The keys whose deadline lies before `now`, each once.
    pub fn keys_due_before(&self, now: i128) -> (r: Vec<String>)
        requires
            self.wf(),
        ensures
            strings_view(r@).to_set() == keys_due_before(self@, now),
    {
        let mut out: Vec<String> = Vec::new();
        let mut i: usize = 0;
        while i < self.entries.len()
            invariant
                self.wf(),
                i <= self.entries@.len(),
                forall|k: Seq<char>|
                    strings_view(out@).contains(k) <==> exists|j: int|
                        0 <= j < i && #[trigger] self.entries@[j].0@ == k && self.entries@[j].1
                            < now,
            decreases self.entries@.len() - i,
        {
            let ghost before_v = strings_view(out@);
            let due = self.entries[i].1 < now;
            if due {
                out.push(self.entries[i].0.clone());
            }
            proof {
                let new_v = strings_view(out@);
                if due {
                    assert(new_v =~= before_v.push(self.entries@[i as int].0@));
                } else {
                    assert(new_v =~= before_v);
                }
                assert forall|k: Seq<char>|
                    new_v.contains(k) <==> exists|j: int|
                        0 <= j < i + 1 && #[trigger] self.entries@[j].0@ == k
                            && self.entries@[j].1 < now by {
                    if new_v.contains(k) {
                        let p = choose|p: int| 0 <= p < new_v.len() && new_v[p] == k;
                        if p < before_v.len() {
                            assert(before_v[p] == k);
                            assert(before_v.contains(k));
                        } else {
                            assert(self.entries@[i as int].0@ == k);
                        }
                    }
                    if exists|j: int|
                        0 <= j < i + 1 && #[trigger] self.entries@[j].0@ == k
                            && self.entries@[j].1 < now {
                        let j = choose|j: int|
                            0 <= j < i + 1 && #[trigger] self.entries@[j].0@ == k
                                && self.entries@[j].1 < now;
                        if j < i {
                            assert(self.entries@[j].0@ == k);
                            assert(before_v.contains(k));
                            let p = choose|p: int| 0 <= p < before_v.len() && before_v[p] == k;
                            assert(new_v[p] == k);
                        } else {
                            assert(new_v[new_v.len() - 1] == k);
                        }
                    }
                }
            }
            i = i + 1;
        }
        assert(strings_view(out@).to_set() =~= keys_due_before(self@, now)) by {
            assert forall|k: Seq<char>| #[trigger] strings_view(out@).to_set().contains(k)
                <==> keys_due_before(self@, now).contains(k) by {
                if keys_due_before(self@, now).contains(k) {
                    assert(self.contents@.contains_key(k));
                    let j = choose|j: int| 0 <= j < self.entries@.len() && self.entries@[j].0@ == k;
                    assert(self.contents@.contains_key(self.entries@[j].0@));
                    assert(self.entries@[j].1 < now);
                    assert(strings_view(out@).contains(k));
                }
                if strings_view(out@).to_set().contains(k) {
                    assert(strings_view(out@).contains(k));
                    let j = choose|j: int|
                        0 <= j < i && #[trigger] self.entries@[j].0@ == k && self.entries@[j].1 < now;
                    assert(self.contents@.contains_key(self.entries@[j].0@));
                }
            }
        }
        out
    }
}

} // verus!
