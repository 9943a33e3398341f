use vstd::prelude::*;

verus! {

// A text-keyed mapping with insertion order kept and keys unique: the
// native counterpart of a dynamic associative map or of a plain object
// read as a dictionary.

/// Index of the first entry with the given key, or the length.
pub open spec fn assoc_index_from<V>(s: Seq<(Seq<char>, V)>, key: Seq<char>, i: int) -> int
    decreases s.len() - i,
{
    if i < 0 || i >= s.len() {
        s.len() as int
    } else if s[i].0 == key {
        i
    } else {
        assoc_index_from(s, key, i + 1)
    }
}

/// The value under a key, if any entry has it.
pub open spec fn assoc_lookup<V>(s: Seq<(Seq<char>, V)>, key: Seq<char>) -> Option<V> {
    let idx = assoc_index_from(s, key, 0);
    if idx < s.len() {
        Some(s[idx].1)
    } else {
        None
    }
}

/// Writing under a key: replaces the first match, else appends.
pub open spec fn assoc_set<V>(s: Seq<(Seq<char>, V)>, key: Seq<char>, val: V) -> Seq<
    (Seq<char>, V),
> {
    let idx = assoc_index_from(s, key, 0);
    if idx < s.len() {
        s.update(idx, (key, val))
    } else {
        s.push((key, val))
    }
}

/// No two entries share a key.
pub open spec fn assoc_unique<V>(s: Seq<(Seq<char>, V)>) -> bool {
    forall|i: int, j: int| 0 <= i < j < s.len() ==> s[i].0 != s[j].0
}

pub proof fn lemma_assoc_index_bounds<V>(s: Seq<(Seq<char>, V)>, key: Seq<char>, i: int)
    requires
        0 <= i <= s.len(),
    ensures
        i <= assoc_index_from(s, key, i) <= s.len(),
        assoc_index_from(s, key, i) < s.len() ==> s[assoc_index_from(s, key, i)].0 == key,
        forall|k: int| i <= k < assoc_index_from(s, key, i) ==> s[k].0 != key,
    decreases s.len() - i,
{
    if i < s.len() && s[i].0 != key {
        lemma_assoc_index_bounds(s, key, i + 1);
    }
}

/// Writing keeps keys unique.
pub proof fn lemma_assoc_set_unique<V>(s: Seq<(Seq<char>, V)>, key: Seq<char>, val: V)
    requires
        assoc_unique(s),
    ensures
        assoc_unique(assoc_set(s, key, val)),
{
    lemma_assoc_index_bounds(s, key, 0);
}

/// The view of the backing entries, keys as character sequences.
pub open spec fn map_entries_view<T: DeepView>(s: Seq<(String, T)>) -> Seq<(Seq<char>, T::V)>
    decreases s,
{
    if s.len() == 0 {
        Seq::empty()
    } else {
        map_entries_view(s.drop_last()).push((s.last().0@, s.last().1.deep_view()))
    }
}

pub proof fn lemma_map_entries_view<T: DeepView>(s: Seq<(String, T)>)
    ensures
        map_entries_view(s).len() == s.len(),
        forall|i: int|
            0 <= i < s.len() ==> map_entries_view(s)[i] == (s[i].0@, s[i].1.deep_view()),
    decreases s,
{
    if s.len() > 0 {
        lemma_map_entries_view(s.drop_last());
    }
}

/// A text-keyed mapping with unique keys, in insertion order.
#[derive(Debug)]
pub struct StringMap<T> {
    entries: Vec<(String, T)>,
}

impl<T: DeepView> DeepView for StringMap<T> {
    type V = Seq<(Seq<char>, T::V)>;

    closed spec fn deep_view(&self) -> Seq<(Seq<char>, T::V)> {
        map_entries_view(self.entries@)
    }
}

impl<T: DeepView> StringMap<T> {
    /// Keys are unique.
    pub open spec fn wf(&self) -> bool {
        assoc_unique(self.deep_view())
    }

    /// An empty mapping.
    pub fn new() -> (r: StringMap<T>)
        ensures
            r.deep_view() == Seq::<(Seq<char>, T::V)>::empty(),
            r.wf(),
    {
        let r = StringMap { entries: Vec::new() };
        proof {
            assert(r.deep_view() =~= Seq::<(Seq<char>, T::V)>::empty());
        }
        r
    }

    /// How many entries the mapping holds.
    pub fn len(&self) -> (r: usize)
        ensures
            r == self.deep_view().len(),
    {
        proof {
            lemma_map_entries_view(self.entries@);
        }
        self.entries.len()
    }

    /// The backing entries, by value, in insertion order.
    pub fn into_entries(self) -> (r: Vec<(String, T)>)
        ensures
            map_entries_view(r@) == self.deep_view(),
    {
        self.entries
    }

    /// The backing entries, in insertion order.
    pub fn entries(&self) -> (r: &Vec<(String, T)>)
        ensures
            map_entries_view(r@) == self.deep_view(),
    {
        &self.entries
    }

    fn index_of(&self, key: &String) -> (r: usize)
        ensures
            r == assoc_index_from(self.deep_view(), key@, 0),
            r <= self.deep_view().len(),
    {
        proof {
            lemma_map_entries_view(self.entries@);
        }
        let ghost mv = self.deep_view();
        let len = self.entries.len();
        let mut i: usize = 0;
        while i < len && !(self.entries[i].0 == *key)
            invariant
                i <= len,
                len == self.entries@.len(),
                mv == self.deep_view(),
                mv.len() == len,
                forall|k: int|
                    0 <= k < len ==> mv[k] == (self.entries@[k].0@, self.entries@[k].1.deep_view()),
                assoc_index_from(mv, key@, 0) == assoc_index_from(mv, key@, i as int),
            decreases len - i,
        {
            proof {
                assert(mv[i as int].0 != key@);
                assert(assoc_index_from(mv, key@, i as int) == assoc_index_from(
                    mv,
                    key@,
                    i as int + 1,
                ));
            }
            i = i + 1;
        }
        proof {
            assert(assoc_index_from(mv, key@, i as int) == i);
        }
        i
    }

    /// The value under `key`, if the mapping has one.
    pub fn get<'a>(&'a self, key: &String) -> (r: Option<&'a T>)
        ensures
            match r {
                Some(v) => assoc_lookup(self.deep_view(), key@) == Some(v.deep_view()),
                None => assoc_lookup(self.deep_view(), key@) is None,
            },
    {
        proof {
            lemma_map_entries_view(self.entries@);
        }
        let idx = self.index_of(key);
        if idx < self.entries.len() {
            Some(&self.entries[idx].1)
        } else {
            None
        }
    }

    /// Writes `val` under `key`: replaces an existing entry, else appends.
    pub fn insert(&mut self, key: String, val: T)
        ensures
            final(self).deep_view() == assoc_set(old(self).deep_view(), key@, val.deep_view()),
            old(self).wf() ==> final(self).wf(),
    {
        proof {
            lemma_map_entries_view(old(self).entries@);
            if old(self).wf() {
                lemma_assoc_set_unique(old(self).deep_view(), key@, val.deep_view());
            }
        }
        let idx = self.index_of(&key);
        if idx < self.entries.len() {
            let ghost before = self.entries@;
            self.entries[idx] = (key, val);
            proof {
                lemma_map_entries_view(self.entries@);
                lemma_map_entries_view(before);
                assert(map_entries_view(self.entries@) =~= map_entries_view(before).update(
                    idx as int,
                    (key@, val.deep_view()),
                ));
            }
        } else {
            let ghost before = self.entries@;
            self.entries.push((key, val));
            proof {
                lemma_map_entries_view(self.entries@);
                lemma_map_entries_view(before);
                assert(map_entries_view(self.entries@) =~= map_entries_view(before).push(
                    (key@, val.deep_view()),
                ));
            }
        }
    }
}

} // verus!
