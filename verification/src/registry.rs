//! Subscribers kept by id: subscribing again under an id replaces the
//! subscriber kept under it, unsubscribing removes it.
use vstd::prelude::*;
use crate::exchange::{first_index_of, lemma_first_index_of, lemma_is_first_index};

verus! {

/// Entries keyed by distinct ids.
#[derive(Clone)]
pub struct Registry<T> {
    entries: Vec<(String, T)>,
}

/// The ids of a list of entries.
pub open spec fn entry_ids<T>(entries: Seq<(String, T)>) -> Seq<Seq<char>> {
    entries.map_values(|e: (String, T)| e.0@)
}

/// No two entries share an id.
pub open spec fn distinct_keys(ks: Seq<Seq<char>>) -> bool {
    forall|i: int, j: int| 0 <= i < ks.len() && 0 <= j < ks.len() && i != j ==> ks[i] != ks[j]
}

/// Among distinct ids, the one position that holds an id is where it first occurs.
proof fn lemma_unique_position(ks: Seq<Seq<char>>, k: Seq<char>, j: int)
    requires
        distinct_keys(ks),
        0 <= j < ks.len(),
        ks[j] == k,
    ensures
        first_index_of(ks, k) == j,
{
    assert forall|i: int| 0 <= i < j implies ks[i] != k by {}
    lemma_is_first_index(ks, k, j);
}

impl<T> Registry<T> {
    /// The entries, in the order in which their ids were first kept.
    pub closed spec fn entries(&self) -> Seq<(String, T)> {
        self.entries@
    }

    /// The ids kept, in order.
    pub open spec fn ids(&self) -> Seq<Seq<char>> {
        entry_ids(self.entries())
    }

    /// The ids are distinct.
    pub open spec fn wf(&self) -> bool {
        distinct_keys(self.ids())
    }

    /// What is kept under each id.
    pub open spec fn view(&self) -> Map<Seq<char>, T> {
        Map::new(
            |k: Seq<char>| self.ids().contains(k),
            |k: Seq<char>| self.entries()[first_index_of(self.ids(), k)].1,
        )
    }

    /// Nothing kept.
    pub fn new() -> (r: Self)
        ensures
            r.wf(),
            r.view() == Map::<Seq<char>, T>::empty(),
            r.entries() == Seq::<(String, T)>::empty(),
    {
        let r = Registry { entries: Vec::new() };
        assert(r.view() =~= Map::<Seq<char>, T>::empty());
        r
    }

    /// The number of entries.
    pub fn len(&self) -> (r: usize)
        ensures
            r == self.entries().len(),
    {
        self.entries.len()
    }

    /// The value of the `i`-th entry.
    pub fn value_at(&self, i: usize) -> (r: &T)
        requires
            i < self.entries().len(),
        ensures
            *r == self.entries()[i as int].1,
    {
        &self.entries[i].1
    }

    fn position(&self, id: &String) -> (r: Option<usize>)
        ensures
            match r {
                Some(i) => i == first_index_of(self.ids(), id@),
                None => first_index_of(self.ids(), id@) == -1,
            },
    {
        let ghost ks = self.ids();
        let mut i: usize = 0;
        while i < self.entries.len()
            invariant
                i <= self.entries@.len(),
                ks == self.ids(),
                ks.len() == self.entries@.len(),
                forall|j: int| 0 <= j < i ==> ks[j] != id@,
            decreases self.entries@.len() - i,
        {
            if self.entries[i].0 == *id {
                proof {
                    lemma_is_first_index(ks, id@, i as int);
                }
                return Some(i);
            }
            i = i + 1;
        }
        proof {
            lemma_is_first_index(ks, id@, -1);
        }
        None
    }

    /// Keeps `value` under `id`, in place of what was kept under it before.
    pub fn insert(&mut self, id: String, value: T)
        requires
            old(self).wf(),
        ensures
            final(self).wf(),
            final(self).view() == old(self).view().insert(id@, value),
    {
        let ghost ks = self.ids();
        let ghost k = id@;
        match self.position(&id) {
            Some(i) => {
                proof {
                    lemma_first_index_of(ks, k);
                }
                let ghost before = self.entries@;
                self.entries.set(i, (id, value));
                assert(self.ids() =~= ks);
                assert forall|q: Seq<char>| #[trigger] self.view().contains_key(q) implies self.view()[q] == old(self).view().insert(k, value)[q] by {
                    lemma_first_index_of(ks, q);
                    if q != k {
                        assert(self.entries@[first_index_of(ks, q)] == before[first_index_of(ks, q)]);
                    }
                }
                assert(self.view() =~= old(self).view().insert(k, value));
            },
            None => {
                proof {
                    lemma_first_index_of(ks, k);
                }
                let ghost before = self.entries@;
                self.entries.push((id, value));
                let ghost ks2 = self.ids();
                assert(ks2 =~= ks.push(k));
                assert forall|i: int, j: int| 0 <= i < ks2.len() && 0 <= j < ks2.len() && i != j implies ks2[i] != ks2[j] by {
                    if i == ks.len() {
                        assert(!ks.contains(k));
                        assert(ks2[j] == ks[j]);
                    } else if j == ks.len() {
                        assert(ks2[i] == ks[i]);
                    }
                }
                assert forall|q: Seq<char>| #[trigger] self.view().contains_key(q) implies self.view()[q] == old(self).view().insert(k, value)[q] by {
                    if q == k {
                        lemma_unique_position(ks2, k, ks.len() as int);
                    } else {
                        assert(ks2.contains(q));
                        let j = choose|j: int| 0 <= j < ks2.len() && ks2[j] == q;
                        assert(j < ks.len());
                        assert(ks[j] == q);
                        lemma_unique_position(ks2, q, j);
                        lemma_unique_position(ks, q, j);
                    }
                }
                assert forall|q: Seq<char>| #[trigger] old(self).view().insert(k, value).contains_key(q) implies self.view().contains_key(q) by {
                    if q != k {
                        let j = choose|j: int| 0 <= j < ks.len() && ks[j] == q;
                        assert(ks2[j] == q);
                    } else {
                        assert(ks2[ks.len() as int] == k);
                    }
                }
                assert(self.view() =~= old(self).view().insert(k, value));
            },
        }
    }

    /// Drops what is kept under `id`, if anything.
    pub fn remove(&mut self, id: &String)
        requires
            old(self).wf(),
        ensures
            final(self).wf(),
            final(self).view() == old(self).view().remove(id@),
    {
        let ghost ks = self.ids();
        let ghost k = id@;
        match self.position(id) {
            Some(i) => {
                proof {
                    lemma_first_index_of(ks, k);
                }
                let ghost before = self.entries@;
                let _ = self.entries.remove(i);
                let ghost ks2 = self.ids();
                assert(ks2 =~= ks.remove(i as int));
                assert forall|a: int, b: int| 0 <= a < ks2.len() && 0 <= b < ks2.len() && a != b implies ks2[a] != ks2[b] by {
                    let a2 = if a < i { a } else { a + 1 };
                    let b2 = if b < i { b } else { b + 1 };
                    assert(ks2[a] == ks[a2] && ks2[b] == ks[b2]);
                }
                assert forall|q: Seq<char>| #[trigger] self.view().contains_key(q) implies self.view()[q] == old(self).view().remove(k)[q] && q != k by {
                    let j = choose|j: int| 0 <= j < ks2.len() && ks2[j] == q;
                    let j2 = if j < i { j } else { j + 1 };
                    assert(ks[j2] == q);
                    assert(j2 != i);
                    lemma_unique_position(ks2, q, j);
                    lemma_unique_position(ks, q, j2);
                    assert(self.entries@[j] == before[j2]);
                }
                assert forall|q: Seq<char>| #[trigger] old(self).view().remove(k).contains_key(q) implies self.view().contains_key(q) by {
                    let j = choose|j: int| 0 <= j < ks.len() && ks[j] == q;
                    assert(j != i);
                    let j2 = if j < i { j } else { j - 1 };
                    assert(ks2[j2] == q);
                }
                assert(self.view() =~= old(self).view().remove(k));
            },
            None => {
                proof {
                    lemma_first_index_of(ks, k);
                }
                assert(self.view() =~= old(self).view().remove(k));
            },
        }
    }
}

/// Keeping a value under an id and then removing that id leaves what was kept
/// under the other ids, with nothing under that id.
pub proof fn law_subscribe_then_unsubscribe<T>(m: Map<Seq<char>, T>, id: Seq<char>, value: T)
    ensures
        m.insert(id, value).remove(id) == m.remove(id),
        !m.insert(id, value).remove(id).contains_key(id),
{
    assert(m.insert(id, value).remove(id) =~= m.remove(id));
}

/// Keeping two values under one id keeps only the second.
pub proof fn law_subscribe_twice<T>(m: Map<Seq<char>, T>, id: Seq<char>, first: T, second: T)
    ensures
        m.insert(id, first).insert(id, second) == m.insert(id, second),
{
    assert(m.insert(id, first).insert(id, second) =~= m.insert(id, second));
}

} // verus!
