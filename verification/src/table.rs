//! A map from module paths to values.

use vstd::prelude::*;
use crate::path::{same_path, ModPath, PathView};
use crate::text::texts;

verus! {

/// Maps module paths to values. A path that is entered again gets the new
/// value in place of the old one.
#[derive(Debug)]
pub struct PathMap<V> {
    entries: Vec<(ModPath, V)>,
}

/// The map that a list of entries stands for: a later entry replaces an
/// earlier one of the same path.
pub open spec fn folded<V: View>(entries: Seq<(ModPath, V)>) -> Map<PathView, V::V>
    decreases entries.len(),
{
    if entries.len() == 0 {
        Map::empty()
    } else {
        folded(entries.drop_last()).insert(texts(entries.last().0@), entries.last().1@)
    }
}

/// The values of a list of entries, in order.
pub open spec fn entered<V: View>(entries: Seq<(ModPath, V)>) -> Seq<V::V> {
    Seq::new(entries.len(), |i: int| entries[i].1@)
}

/// The map of a list of entries has the value of the last entry for a
/// path, none where no entry is for it, and finitely many paths.
proof fn lemma_folded<V: View>(entries: Seq<(ModPath, V)>, key: PathView, from: int)
    requires
        0 <= from <= entries.len(),
        forall|j: int| from <= j < entries.len() ==> texts(entries[j].0@) != key,
    ensures
        from == 0 ==> !folded(entries).contains_key(key),
        from > 0 && texts(entries[from - 1].0@) == key ==> folded(entries).contains_key(key)
            && folded(entries)[key] == entries[from - 1].1@,
        folded(entries).dom().finite(),
    decreases entries.len(),
{
    if entries.len() > 0 {
        let front = entries.drop_last();
        if from == entries.len() {
            lemma_folded(front, key, from - 1);
        } else {
            lemma_folded(front, key, from);
        }
    }
}

/// Every value of the map was entered.
proof fn lemma_folded_value<V: View>(entries: Seq<(ModPath, V)>, key: PathView)
    requires
        folded(entries).contains_key(key),
    ensures
        entered(entries).contains(folded(entries)[key]),
    decreases entries.len(),
{
    if entries.len() > 0 {
        let front = entries.drop_last();
        let n = entries.len() - 1;
        if texts(entries.last().0@) == key {
            assert(entered(entries)[n] == folded(entries)[key]);
        } else {
            lemma_folded_value(front, key);
            let i = choose|i: int| 0 <= i < front.len() && entered(front)[i] == folded(front)[key];
            assert(entered(entries)[i] == folded(entries)[key]);
        }
    }
}

impl<V: View> View for PathMap<V> {
    type V = Map<PathView, V::V>;

    closed spec fn view(&self) -> Map<PathView, V::V> {
        folded(self.entries@)
    }
}

impl<V: View> PathMap<V> {
    /// All the values that were ever entered, in the order of their entry.
    pub closed spec fn values(&self) -> Seq<V::V> {
        entered(self.entries@)
    }

    /// Every value of the map was entered once, and the map has finitely many paths.
    pub proof fn lemma_values(&self, key: PathView)
        ensures
            self@.dom().finite(),
            self@.contains_key(key) ==> self.values().contains(self@[key]),
    {
        lemma_folded(self.entries@, key, self.entries@.len() as int);
        if self@.contains_key(key) {
            lemma_folded_value(self.entries@, key);
        }
    }

    /// A map without paths.
    pub fn new() -> (r: Self)
        ensures
            r@ == Map::<PathView, V::V>::empty(),
            r.values() == Seq::<V::V>::empty(),
    {
        let r = PathMap { entries: Vec::new() };
        assert(r.values() == Seq::<V::V>::empty());
        r
    }

    /// Enters `value` for `key`.
    pub fn insert(&mut self, key: ModPath, value: V)
        ensures
            final(self)@ == old(self)@.insert(texts(key@), value@),
            final(self).values() == old(self).values().push(value@),
    {
        let ghost before = self.entries@;
        self.entries.push((key, value));
        assert(self.entries@.drop_last() == before);
        assert(self.values() == entered(before).push(value@));
    }

    /// The value for `key`, if it has one.
    pub fn get(&self, key: &[String]) -> (r: Option<&V>)
        ensures
            r is Some <==> self@.contains_key(texts(key@)),
            r matches Some(v) ==> v@ == self@[texts(key@)],
    {
        let mut i: usize = self.entries.len();
        while i > 0
            invariant
                i <= self.entries.len(),
                forall|j: int| i <= j < self.entries.len() ==> texts(self.entries[j].0@) != texts(key@),
            decreases i,
        {
            if same_path(self.entries[i - 1].0.as_slice(), key) {
                proof {
                    lemma_folded(self.entries@, texts(key@), i as int);
                }
                return Some(&self.entries[i - 1].1);
            }
            i -= 1;
        }
        proof {
            lemma_folded(self.entries@, texts(key@), 0);
        }
        None
    }

    /// Whether `key` has a value.
    pub fn contains_key(&self, key: &[String]) -> (r: bool)
        ensures
            r == self@.contains_key(texts(key@)),
    {
        self.get(key).is_some()
    }
}

} // verus!
