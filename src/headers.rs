//! A header mapping: at most one value for each exact name, a later insertion
//! replacing an earlier one.
use vstd::prelude::*;

verus! {

/// The mapping that a sequence of (key, value) insertions leaves, later
/// insertions replacing earlier ones.
pub open spec fn map_of<K, V>(s: Seq<(K, V)>) -> Map<K, V>
    decreases s.len(),
{
    if s.len() == 0 {
        Map::empty()
    } else {
        map_of(s.drop_last()).insert(s.last().0, s.last().1)
    }
}

/// The keys of `map_of(s)` are the keys that occur in `s`.
pub proof fn lemma_map_of_keys<K, V>(s: Seq<(K, V)>, k: K)
    ensures
        map_of(s).contains_key(k) <==> exists|i: int| 0 <= i < s.len() && (#[trigger] s[i]).0 == k,
    decreases s.len(),
{
    if s.len() > 0 {
        let t = s.drop_last();
        lemma_map_of_keys(t, k);
        if map_of(s).contains_key(k) && s.last().0 != k {
            let i = choose|i: int| 0 <= i < t.len() && (#[trigger] t[i]).0 == k;
            assert(s[i] == t[i]);
        }
        if exists|i: int| 0 <= i < s.len() && (#[trigger] s[i]).0 == k {
            let i = choose|i: int| 0 <= i < s.len() && (#[trigger] s[i]).0 == k;
            if i < s.len() - 1 {
                assert(t[i] == s[i]);
            }
        }
    }
}

/// An entry whose key does not occur later in `s` gives that key's value.
pub proof fn lemma_map_of_last<K, V>(s: Seq<(K, V)>, i: int)
    requires
        0 <= i < s.len(),
        forall|j: int| i < j < s.len() ==> (#[trigger] s[j]).0 != s[i].0,
    ensures
        map_of(s).contains_key(s[i].0),
        map_of(s)[s[i].0] == s[i].1,
    decreases s.len(),
{
    if i < s.len() - 1 {
        let t = s.drop_last();
        assert(t[i] == s[i]);
        assert forall|j: int| i < j < t.len() implies (#[trigger] t[j]).0 != t[i].0 by {
            assert(t[j] == s[j]);
        }
        lemma_map_of_last(t, i);
    }
}

/// Replacing the value of the last entry of a key is an insertion.
pub proof fn lemma_map_of_update_last<K, V>(s: Seq<(K, V)>, i: int, v: V)
    requires
        0 <= i < s.len(),
        forall|j: int| i < j < s.len() ==> (#[trigger] s[j]).0 != s[i].0,
    ensures
        map_of(s.update(i, (s[i].0, v))) == map_of(s).insert(s[i].0, v),
    decreases s.len(),
{
    let u = s.update(i, (s[i].0, v));
    let t = s.drop_last();
    assert(u.drop_last() =~= if i == s.len() - 1 { t } else { t.update(i, (s[i].0, v)) });
    if i < s.len() - 1 {
        assert(t[i] == s[i]);
        assert forall|j: int| i < j < t.len() implies (#[trigger] t[j]).0 != t[i].0 by {
            assert(t[j] == s[j]);
        }
        lemma_map_of_update_last(t, i, v);
        assert(map_of(u) =~= map_of(s).insert(s[i].0, v));
    } else {
        assert(map_of(u) =~= map_of(s).insert(s[i].0, v));
    }
}

/// The characters of each key and value.
pub open spec fn entry_views(e: Seq<(String, String)>) -> Seq<(Seq<char>, Seq<char>)> {
    e.map_values(|p: (String, String)| (p.0@, p.1@))
}

/// Header fields: at most one value for each exact name.
#[derive(Debug)]
pub struct HeaderMap {
    entries: Vec<(String, String)>,
}

impl HeaderMap {
    /// The mapping from each name to its value.
    pub closed spec fn view(&self) -> Map<Seq<char>, Seq<char>> {
        map_of(entry_views(self.entries@))
    }

    pub fn new() -> (r: HeaderMap)
        ensures
            r.view() == Map::<Seq<char>, Seq<char>>::empty(),
    {
        let r = HeaderMap { entries: Vec::new() };
        assert(entry_views(r.entries@) =~= Seq::empty());
        r
    }

    /// The index of the last entry named `name`, if there is one.
    fn find(&self, name: &String) -> (r: Option<usize>)
        ensures
            match r {
                Some(i) => i < self.entries@.len() && entry_views(self.entries@)[i as int].0 == name@
                    && forall|j: int|
                    i < j < self.entries@.len() ==> (#[trigger] entry_views(self.entries@)[j]).0
                        != name@,
                None => forall|j: int|
                    0 <= j < self.entries@.len() ==> (#[trigger] entry_views(self.entries@)[j]).0
                        != name@,
            },
    {
        let ghost es = entry_views(self.entries@);
        let mut i: usize = self.entries.len();
        while i > 0
            invariant
                i <= self.entries@.len(),
                es == entry_views(self.entries@),
                forall|j: int| i <= j < es.len() ==> (#[trigger] es[j]).0 != name@,
            decreases i,
        {
            i = i - 1;
            if self.entries[i].0 == *name {
                return Some(i);
            }
        }
        None
    }

    /// Sets the value of `name`, replacing the one it had.
    pub fn insert(&mut self, name: String, value: String)
        ensures
            final(self).view() == old(self).view().insert(name@, value@),
    {
        let ghost before = entry_views(self.entries@);
        match self.find(&name) {
            Some(i) => {
                proof {
                    lemma_map_of_update_last(before, i as int, value@);
                }
                self.entries.set(i, (name, value));
                assert(entry_views(self.entries@) =~= before.update(
                    i as int,
                    (before[i as int].0, value@),
                ));
            },
            None => {
                self.entries.push((name, value));
                assert(entry_views(self.entries@).drop_last() =~= before);
            },
        }
    }

    /// The value of `name`, if it has one.
    pub fn get(&self, name: &String) -> (r: Option<&String>)
        ensures
            r.is_some() == self.view().contains_key(name@),
            r.is_some() ==> r.unwrap()@ == self.view()[name@],
    {
        let ghost es = entry_views(self.entries@);
        match self.find(name) {
            Some(i) => {
                proof {
                    lemma_map_of_last(es, i as int);
                }
                Some(&self.entries[i].1)
            },
            None => {
                proof {
                    lemma_map_of_keys(es, name@);
                }
                None
            },
        }
    }
}

} // verus!
