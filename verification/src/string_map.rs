//! Maps whose keys are texts.
use vstd::prelude::*;
use vstd::string::*;

verus! {

/// The map that a list of entries stands for: of two entries with the same key the later counts.
pub open spec fn entries_map<V>(entries: Seq<(String, V)>) -> Map<Seq<char>, V>
    decreases entries.len(),
{
    if entries.len() == 0 {
        Map::empty()
    } else {
        entries_map(entries.drop_last()).insert(entries.last().0@, entries.last().1)
    }
}

/// A map from texts to values. Its view has the texts' characters for keys.
#[derive(Debug)]
pub struct StringMap<V> {
    entries: Vec<(String, V)>,
}

impl<V> View for StringMap<V> {
    type V = Map<Seq<char>, V>;

    closed spec fn view(&self) -> Map<Seq<char>, V> {
        entries_map(self.entries@)
    }
}

/// Where no entry has a key, the map does not have it either.
proof fn lemma_absent<V>(entries: Seq<(String, V)>, key: Seq<char>)
    requires
        forall|j: int| 0 <= j < entries.len() ==> (#[trigger] entries[j]).0@ != key,
    ensures
        !entries_map(entries).contains_key(key),
    decreases entries.len(),
{
    if entries.len() > 0 {
        let front = entries.drop_last();
        assert forall|j: int| 0 <= j < front.len() implies (#[trigger] front[j]).0@ != key by {
            assert(front[j] == entries[j]);
        }
        lemma_absent(front, key);
        assert(entries.last() == entries[entries.len() - 1]);
    }
}

/// The last entry with a key gives the value that the map has for it.
proof fn lemma_last<V>(entries: Seq<(String, V)>, i: int)
    requires
        0 <= i < entries.len(),
        forall|j: int| i < j < entries.len() ==> (#[trigger] entries[j]).0@ != entries[i].0@,
    ensures
        entries_map(entries).contains_key(entries[i].0@),
        entries_map(entries)[entries[i].0@] == entries[i].1,
    decreases entries.len(),
{
    if i < entries.len() - 1 {
        let front = entries.drop_last();
        assert forall|j: int| i < j < front.len() implies (#[trigger] front[j]).0@ != front[i].0@ by {
            assert(front[j] == entries[j]);
        }
        lemma_last(front, i);
        assert(entries[entries.len() - 1].0@ != entries[i].0@);
    }
}

/// Taking an entry away changes the map at most at its key.
proof fn lemma_removed<V>(entries: Seq<(String, V)>, i: int, key: Seq<char>, value: V)
    requires
        0 <= i < entries.len(),
        entries[i].0@ == key,
    ensures
        entries_map(entries.remove(i)).insert(key, value) == entries_map(entries).insert(
            key,
            value,
        ),
    decreases entries.len(),
{
    let front = entries.drop_last();
    if i == entries.len() - 1 {
        assert(entries.remove(i) =~= front);
        assert(entries_map(front).insert(key, value) =~= entries_map(entries).insert(key, value));
    } else {
        let last = entries.last();
        lemma_removed(front, i, key, value);
        assert(entries.remove(i).drop_last() =~= front.remove(i));
        assert(entries.remove(i).last() == last);
        let a = entries_map(front.remove(i));
        let b = entries_map(front);
        assert(a.insert(key, value) == b.insert(key, value));
        let left = a.insert(last.0@, last.1).insert(key, value);
        let right = b.insert(last.0@, last.1).insert(key, value);
        assert forall|k: Seq<char>| #[trigger]
            left.dom().contains(k) == right.dom().contains(k) && left[k] == right[k] by {
            if k != key {
                assert(a.insert(key, value).dom().contains(k) == b.insert(key, value).dom().contains(k));
                assert(a.insert(key, value)[k] == b.insert(key, value)[k]);
            }
        }
        assert(left =~= right);
    }
}

impl<V> StringMap<V> {
    /// The empty map.
    pub fn new() -> (map: StringMap<V>)
        ensures
            map@ == Map::<Seq<char>, V>::empty(),
    {
        StringMap { entries: Vec::new() }
    }

    /// Where the last entry with a key is.
    fn position(&self, key: &str) -> (at: Option<usize>)
        ensures
            match at {
                Some(i) => {
                    &&& i < self.entries@.len()
                    &&& self.entries@[i as int].0@ == key@
                    &&& forall|j: int|
                        i < j < self.entries@.len() ==> (#[trigger] self.entries@[j]).0@ != key@
                },
                None => forall|j: int|
                    0 <= j < self.entries@.len() ==> (#[trigger] self.entries@[j]).0@ != key@,
            },
    {
        let wanted = key.to_owned();
        let mut i: usize = self.entries.len();
        while i > 0
            invariant
                i <= self.entries@.len(),
                wanted@ == key@,
                forall|j: int|
                    i <= j < self.entries@.len() ==> (#[trigger] self.entries@[j]).0@ != key@,
            decreases i,
        {
            i -= 1;
            if self.entries[i].0 == wanted {
                return Some(i);
            }
        }
        None
    }

    /// The value of a key.
    pub fn get(&self, key: &str) -> (value: Option<&V>)
        ensures
            match value {
                Some(value) => self@.contains_key(key@) && self@[key@] == *value,
                None => !self@.contains_key(key@),
            },
    {
        match self.position(key) {
            Some(i) => {
                proof {
                    lemma_last(self.entries@, i as int);
                }
                Some(&self.entries[i].1)
            },
            None => {
                proof {
                    lemma_absent(self.entries@, key@);
                }
                None
            },
        }
    }

    /// Gives a key a value, and returns the value that it had.
    pub fn insert(&mut self, key: String, value: V) -> (former: Option<V>)
        ensures
            final(self)@ == old(self)@.insert(key@, value),
            match former {
                Some(former) => old(self)@.contains_key(key@) && old(self)@[key@] == former,
                None => !old(self)@.contains_key(key@),
            },
    {
        let ghost before = self.entries@;
        let former = match self.position(key.as_str()) {
            Some(i) => {
                proof {
                    lemma_last(before, i as int);
                    lemma_removed(before, i as int, key@, value);
                }
                Some(self.entries.remove(i).1)
            },
            None => {
                proof {
                    lemma_absent(before, key@);
                }
                None
            },
        };
        let ghost kept = self.entries@;
        self.entries.push((key, value));
        assert(self.entries@.drop_last() =~= kept);
        former
    }
}

} // verus!
