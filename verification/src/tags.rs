//! OSM tags: a map from keys to values, both text.
use vstd::prelude::*;

use crate::strings::{str_eq, str_is_any};

verus! {

/// The map that a list of key/value pairs stands for, later pairs overriding earlier ones.
pub open spec fn entries_map(s: Seq<(Seq<char>, Seq<char>)>) -> Map<Seq<char>, Seq<char>>
    decreases s.len(),
{
    if s.len() == 0 {
        Map::empty()
    } else {
        entries_map(s.drop_last()).insert(s.last().0, s.last().1)
    }
}

pub open spec fn keys_distinct(s: Seq<(Seq<char>, Seq<char>)>) -> bool {
    forall|i: int, j: int| 0 <= i < s.len() && 0 <= j < s.len() && i != j ==> s[i].0 != s[j].0
}

pub proof fn lemma_entries_map_lookup(s: Seq<(Seq<char>, Seq<char>)>, i: int)
    requires
        keys_distinct(s),
        0 <= i < s.len(),
    ensures
        entries_map(s).contains_key(s[i].0),
        entries_map(s)[s[i].0] == s[i].1,
    decreases s.len(),
{
    if i < s.len() - 1 {
        lemma_entries_map_lookup(s.drop_last(), i);
    }
}

pub proof fn lemma_entries_map_absent(s: Seq<(Seq<char>, Seq<char>)>, k: Seq<char>)
    requires
        forall|i: int| 0 <= i < s.len() ==> s[i].0 != k,
    ensures
        !entries_map(s).contains_key(k),
    decreases s.len(),
{
    if s.len() > 0 {
        lemma_entries_map_absent(s.drop_last(), k);
    }
}

proof fn lemma_entries_map_update(
    s: Seq<(Seq<char>, Seq<char>)>,
    i: int,
    v: Seq<char>,
)
    requires
        keys_distinct(s),
        0 <= i < s.len(),
    ensures
        entries_map(s.update(i, (s[i].0, v))) == entries_map(s).insert(s[i].0, v),
    decreases s.len(),
{
    let t = s.update(i, (s[i].0, v));
    if i == s.len() - 1 {
        assert(t.drop_last() =~= s.drop_last());
        assert forall|j: int| 0 <= j < s.len() - 1 implies s.drop_last()[j].0 != s[i].0 by {}
        lemma_entries_map_absent(s.drop_last(), s[i].0);
        assert(entries_map(t) =~= entries_map(s).insert(s[i].0, v));
    } else {
        lemma_entries_map_update(s.drop_last(), i, v);
        assert(t.drop_last() =~= s.drop_last().update(i, (s[i].0, v)));
        assert(entries_map(t) =~= entries_map(s).insert(s[i].0, v));
    }
}

/// A set of OSM tags on one way or node. Each key occurs once.
pub struct Tags {
    entries: Vec<(String, String)>,
}

impl Tags {
    /// The key/value pairs, in the order they were first inserted.
    pub closed spec fn pairs(&self) -> Seq<(Seq<char>, Seq<char>)> {
        self.entries@.map_values(|e: (String, String)| (e.0@, e.1@))
    }

    #[verifier::type_invariant]
    spec fn wf(&self) -> bool {
        keys_distinct(self.pairs())
    }

    /// No tags at all.
    pub fn empty() -> (r: Tags)
        ensures
            r@ == Map::<Seq<char>, Seq<char>>::empty(),
            r.pairs().len() == 0,
    {
        let r = Tags { entries: Vec::new() };
        assert(r.pairs() =~= Seq::<(Seq<char>, Seq<char>)>::empty());
        r
    }

    /// The position of `k` among the pairs.
    fn find(&self, k: &str) -> (r: Option<usize>)
        ensures
            match r {
                Some(i) => i < self.pairs().len() && self.pairs()[i as int].0 == k@
                    && self@.contains_key(k@) && self@[k@] == self.pairs()[i as int].1,
                None => !self@.contains_key(k@),
            },
    {
        proof {
            use_type_invariant(self);
        }
        let mut i: usize = 0;
        while i < self.entries.len()
            invariant
                i <= self.entries@.len(),
                keys_distinct(self.pairs()),
                self.pairs().len() == self.entries@.len(),
                forall|j: int| 0 <= j < i ==> self.pairs()[j].0 != k@,
            decreases self.entries@.len() - i,
        {
            assert(self.pairs()[i as int].0 == self.entries@[i as int].0@);
            if str_eq(self.entries[i].0.as_str(), k) {
                proof {
                    lemma_entries_map_lookup(self.pairs(), i as int);
                }
                return Some(i);
            }
            i = i + 1;
        }
        proof {
            lemma_entries_map_absent(self.pairs(), k@);
        }
        None
    }

    /// The value of `k`, if it is set.
    pub fn get(&self, k: &str) -> (r: Option<&String>)
        ensures
            match r {
                Some(v) => self@.contains_key(k@) && v@ == self@[k@],
                None => !self@.contains_key(k@),
            },
    {
        match self.find(k) {
            Some(i) => Some(&self.entries[i].1),
            None => None,
        }
    }

    pub fn contains_key(&self, k: &str) -> (r: bool)
        ensures
            r == self@.contains_key(k@),
    {
        self.find(k).is_some()
    }

    /// Whether `k` is set to `v`.
    pub fn is(&self, k: &str, v: &str) -> (r: bool)
        ensures
            r == (self@.contains_key(k@) && self@[k@] == v@),
    {
        match self.get(k) {
            Some(x) => str_eq(x.as_str(), v),
            None => false,
        }
    }

    /// Whether `k` is set to one of `values`.
    pub fn is_any(&self, k: &str, values: &[&str]) -> (r: bool)
        ensures
            r == (self@.contains_key(k@) && exists|i: int|
                0 <= i < values@.len() && (#[trigger] values@[i])@ == self@[k@]),
    {
        match self.get(k) {
            Some(x) => str_is_any(x.as_str(), values),
            None => false,
        }
    }

    /// Whether any of `keys` is set.
    pub fn has_any(&self, keys: &[&str]) -> (r: bool)
        ensures
            r == (exists|i: int| 0 <= i < keys@.len() && self@.contains_key((#[trigger] keys@[i])@)),
    {
        let mut i: usize = 0;
        while i < keys.len()
            invariant
                i <= keys@.len(),
                forall|j: int| 0 <= j < i ==> !self@.contains_key((#[trigger] keys@[j])@),
            decreases keys@.len() - i,
        {
            if self.contains_key(keys[i]) {
                return true;
            }
            i = i + 1;
        }
        false
    }

    /// Sets `k` to `v`, replacing any value it had.
    pub fn insert(&mut self, k: &str, v: &str)
        ensures
            final(self)@ == old(self)@.insert(k@, v@),
    {
        proof {
            use_type_invariant(&*self);
        }
        let found = self.find(k);
        let mut entries: Vec<(String, String)> = Vec::new();
        std::mem::swap(&mut entries, &mut self.entries);
        let ghost old_pairs = entries@.map_values(|e: (String, String)| (e.0@, e.1@));
        match found {
            Some(i) => {
                let key = entries[i].0.clone();
                entries.set(i, (key, String::from_str(v)));
                let ghost new_pairs = entries@.map_values(|e: (String, String)| (e.0@, e.1@));
                assert(new_pairs =~= old_pairs.update(i as int, (old_pairs[i as int].0, v@)));
                proof {
                    lemma_entries_map_update(old_pairs, i as int, v@);
                }
            },
            None => {
                entries.push((String::from_str(k), String::from_str(v)));
                let ghost new_pairs = entries@.map_values(|e: (String, String)| (e.0@, e.1@));
                assert(new_pairs =~= old_pairs.push((k@, v@)));
                assert(new_pairs.drop_last() =~= old_pairs);
                assert forall|j: int| 0 <= j < old_pairs.len() implies old_pairs[j].0 != k@ by {
                    if old_pairs[j].0 == k@ {
                        lemma_entries_map_lookup(old_pairs, j);
                    }
                }
            },
        }
        self.entries = entries;
    }

    /// The number of tags. The pairs list the map: their keys differ, each gives its value,
    /// and every key of the map is among them.
    pub fn len(&self) -> (r: usize)
        ensures
            r == self.pairs().len(),
            keys_distinct(self.pairs()),
            forall|i: int|
                0 <= i < self.pairs().len() ==> #[trigger] self@.contains_key(self.pairs()[i].0)
                    && self@[self.pairs()[i].0] == self.pairs()[i].1,
            forall|k: Seq<char>|
                #[trigger] self@.contains_key(k) ==> exists|i: int|
                    0 <= i < self.pairs().len() && self.pairs()[i].0 == k,
    {
        proof {
            use_type_invariant(self);
            assert forall|i: int| 0 <= i < self.pairs().len() implies #[trigger] self@.contains_key(
                self.pairs()[i].0,
            ) && self@[self.pairs()[i].0] == self.pairs()[i].1 by {
                lemma_entries_map_lookup(self.pairs(), i);
            }
            assert forall|k: Seq<char>| #[trigger] self@.contains_key(k) implies exists|i: int|
                0 <= i < self.pairs().len() && self.pairs()[i].0 == k by {
                if forall|i: int| 0 <= i < self.pairs().len() ==> self.pairs()[i].0 != k {
                    lemma_entries_map_absent(self.pairs(), k);
                }
            }
        }
        self.entries.len()
    }

    /// The key and value of the `i`th pair.
    pub fn pair_at(&self, i: usize) -> (r: (&String, &String))
        requires
            i < self.pairs().len(),
        ensures
            r.0@ == self.pairs()[i as int].0,
            r.1@ == self.pairs()[i as int].1,
    {
        (&self.entries[i].0, &self.entries[i].1)
    }
}

impl Clone for Tags {
    fn clone(&self) -> (r: Tags)
        ensures
            r@ == self@,
            r.pairs() == self.pairs(),
    {
        proof {
            use_type_invariant(self);
        }
        let mut entries: Vec<(String, String)> = Vec::new();
        let mut i: usize = 0;
        while i < self.entries.len()
            invariant
                i <= self.entries@.len(),
                entries@.map_values(|e: (String, String)| (e.0@, e.1@)) == self.pairs().take(
                    i as int,
                ),
            decreases self.entries@.len() - i,
        {
            let ghost prev = entries@.map_values(|e: (String, String)| (e.0@, e.1@));
            let k = self.entries[i].0.clone();
            let v = self.entries[i].1.clone();
            entries.push((k, v));
            assert(entries@.map_values(|e: (String, String)| (e.0@, e.1@)) =~= prev.push(
                self.pairs()[i as int],
            ));
            assert(self.pairs().take(i + 1) =~= self.pairs().take(i as int).push(
                self.pairs()[i as int],
            ));
            i = i + 1;
        }
        assert(self.pairs().take(self.entries@.len() as int) =~= self.pairs());
        let r = Tags { entries };
        assert(r.pairs() =~= self.pairs());
        r
    }
}

impl View for Tags {
    type V = Map<Seq<char>, Seq<char>>;

    closed spec fn view(&self) -> Map<Seq<char>, Seq<char>> {
        entries_map(self.pairs())
    }
}

} // verus!
