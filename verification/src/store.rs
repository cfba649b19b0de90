//! A store of values by name, for the shader programs and render targets that
//! the renderer looks up by name.

use vstd::prelude::*;
use crate::textures::name_views;

verus! {

/// Values stored by name; a name holds at most one value.
pub struct NamedStore<T> {
    entries: Vec<(String, T)>,
}

/// The names of the entries, in order.
pub open spec fn entry_names<T>(entries: Seq<(String, T)>) -> Seq<Seq<char>> {
    entries.map_values(|e: (String, T)| e.0@)
}

/// The map from names to values that the entries make up.
pub open spec fn entries_map<T>(entries: Seq<(String, T)>) -> Map<Seq<char>, T>
    decreases entries.len(),
{
    if entries.len() == 0 {
        Map::empty()
    } else {
        entries_map(entries.drop_last()).insert(entries.last().0@, entries.last().1)
    }
}

proof fn lemma_entries_map_dom<T>(entries: Seq<(String, T)>, k: Seq<char>)
    ensures
        entries_map(entries).dom().contains(k) <==> entry_names(entries).contains(k),
    decreases entries.len(),
{
    if entries.len() > 0 {
        let rest = entries.drop_last();
        lemma_entries_map_dom(rest, k);
        let last = entries.len() - 1;
        assert(entry_names(entries)[last] == entries[last].0@);
        assert forall|j: int| 0 <= j < rest.len() implies entry_names(rest)[j] == entry_names(entries)[j] by {
            assert(rest[j] == entries[j]);
        }
        if entry_names(rest).contains(k) {
            let i = choose|i: int| 0 <= i < entry_names(rest).len() && entry_names(rest)[i] == k;
            assert(entry_names(entries)[i] == k);
        }
        if entry_names(entries).contains(k) {
            let i = choose|i: int| 0 <= i < entry_names(entries).len() && entry_names(entries)[i] == k;
            if i < rest.len() {
                assert(entry_names(rest)[i] == k);
            }
        }
    }
}

proof fn lemma_entries_map_at<T>(entries: Seq<(String, T)>, i: int)
    requires
        entry_names(entries).no_duplicates(),
        0 <= i < entries.len(),
    ensures
        entries_map(entries).dom().contains(entries[i].0@),
        entries_map(entries)[entries[i].0@] == entries[i].1,
    decreases entries.len(),
{
    let rest = entries.drop_last();
    if i < entries.len() - 1 {
        assert(entry_names(rest).no_duplicates()) by {
            assert forall|a: int, b: int| 0 <= a < b < entry_names(rest).len() implies entry_names(
                rest,
            )[a] != entry_names(rest)[b] by {
                assert(entry_names(rest)[a] == entry_names(entries)[a]);
                assert(entry_names(rest)[b] == entry_names(entries)[b]);
            }
        }
        lemma_entries_map_at(rest, i);
        assert(entry_names(entries)[i] != entry_names(entries)[entries.len() - 1]);
    }
}

proof fn lemma_entries_map_update<T>(entries: Seq<(String, T)>, i: int, name: String, value: T)
    requires
        entry_names(entries).no_duplicates(),
        0 <= i < entries.len(),
        entries[i].0@ == name@,
    ensures
        entries_map(entries.update(i, (name, value))) == entries_map(entries).insert(name@, value),
    decreases entries.len(),
{
    let updated = entries.update(i, (name, value));
    let rest = entries.drop_last();
    if i == entries.len() - 1 {
        assert(updated.drop_last() =~= rest);
        assert(entries_map(entries).insert(name@, value) =~= entries_map(rest).insert(name@, value));
    } else {
        assert(entry_names(rest).no_duplicates()) by {
            assert forall|a: int, b: int| 0 <= a < b < entry_names(rest).len() implies entry_names(
                rest,
            )[a] != entry_names(rest)[b] by {
                assert(entry_names(rest)[a] == entry_names(entries)[a]);
                assert(entry_names(rest)[b] == entry_names(entries)[b]);
            }
        }
        lemma_entries_map_update(rest, i, name, value);
        assert(updated.drop_last() =~= rest.update(i, (name, value)));
        assert(entry_names(entries)[i] != entry_names(entries)[entries.len() - 1]);
        assert(entries_map(updated) =~= entries_map(entries).insert(name@, value));
    }
}

impl<T> NamedStore<T> {
    #[verifier::type_invariant]
    spec fn names_distinct(self) -> bool {
        entry_names(self.entries@).no_duplicates()
    }

    /// The stored values by name.
    pub closed spec fn contents(self) -> Map<Seq<char>, T> {
        entries_map(self.entries@)
    }

    /// The names, in the order in which they were first stored.
    pub closed spec fn name_list(self) -> Seq<Seq<char>> {
        entry_names(self.entries@)
    }

    /// An empty store.
    pub fn new() -> (store: NamedStore<T>)
        ensures
            store.contents() == Map::<Seq<char>, T>::empty(),
            store.name_list() == Seq::<Seq<char>>::empty(),
    {
        let store = NamedStore { entries: Vec::new() };
        assert(entry_names(store.entries@) =~= Seq::<Seq<char>>::empty());
        store
    }

    /// The position of the entry with the given name, if any.
    fn position(&self, name: &String) -> (res: Option<usize>)
        ensures
            match res {
                Some(i) => i < self.entries@.len() && self.entries@[i as int].0@ == name@,
                None => !entry_names(self.entries@).contains(name@),
            },
    {
        let mut i: usize = 0;
        while i < self.entries.len()
            invariant
                i <= self.entries@.len(),
                forall|j: int| 0 <= j < i ==> entry_names(self.entries@)[j] != name@,
            decreases self.entries@.len() - i,
        {
            if self.entries[i].0 == *name {
                return Some(i);
            }
            i = i + 1;
        }
        None
    }

    /// Whether a value is stored under `name`.
    pub fn contains(&self, name: &String) -> (res: bool)
        ensures
            res == self.contents().dom().contains(name@),
    {
        proof {
            lemma_entries_map_dom(self.entries@, name@);
        }
        match self.position(name) {
            Some(i) => {
                assert(entry_names(self.entries@)[i as int] == name@);
                true
            },
            None => false,
        }
    }

    /// Stores `value` under `name`, in place of the value stored there before.
    pub fn insert(&mut self, name: String, value: T)
        ensures
            final(self).contents() == old(self).contents().insert(name@, value),
            old(self).contents().dom().contains(name@) ==> final(self).name_list() == old(self).name_list(),
            !old(self).contents().dom().contains(name@) ==> final(self).name_list() == old(self).name_list().push(name@),
    {
        proof {
            use_type_invariant(&*self);
            lemma_entries_map_dom(self.entries@, name@);
        }
        match self.position(&name) {
            Some(i) => {
                let ghost before = self.entries@;
                assert(entry_names(before)[i as int] == name@);
                proof {
                    lemma_entries_map_update(before, i as int, name, value);
                    assert(entry_names(before.update(i as int, (name, value))) =~= entry_names(before));
                }
                let mut entries: Vec<(String, T)> = Vec::new();
                std::mem::swap(&mut entries, &mut self.entries);
                entries[i] = (name, value);
                self.entries = entries;
            },
            None => {
                let ghost before = self.entries@;
                assert(before.push((name, value)).drop_last() =~= before);
                assert(entry_names(before.push((name, value))) =~= entry_names(before).push(name@));
                let mut entries: Vec<(String, T)> = Vec::new();
                std::mem::swap(&mut entries, &mut self.entries);
                entries.push((name, value));
                self.entries = entries;
                assert(self.entries@ == before.push((name, value)));
            },
        }
    }

    /// The value stored under `name`, if any.
    pub fn get(&self, name: &String) -> (res: Option<&T>)
        ensures
            match res {
                Some(v) => self.contents().dom().contains(name@) && *v == self.contents()[name@],
                None => !self.contents().dom().contains(name@),
            },
    {
        proof {
            use_type_invariant(&*self);
            lemma_entries_map_dom(self.entries@, name@);
        }
        match self.position(name) {
            Some(i) => {
                proof {
                    lemma_entries_map_at(self.entries@, i as int);
                }
                Some(&self.entries[i].1)
            },
            None => None,
        }
    }

    /// The stored names, in the order in which they were first stored; each stored
    /// name occurs once, and nothing else occurs.
    pub fn names(&self) -> (res: Vec<String>)
        ensures
            name_views(res@) == self.name_list(),
            self.name_list().no_duplicates(),
            forall|k: Seq<char>| #[trigger] self.name_list().contains(k) <==> self.contents().dom().contains(k),
    {
        proof {
            use_type_invariant(self);
            assert forall|k: Seq<char>| #[trigger] self.name_list().contains(k) <==> self.contents().dom().contains(k) by {
                lemma_entries_map_dom(self.entries@, k);
            }
        }
        let mut out: Vec<String> = Vec::new();
        let mut i: usize = 0;
        while i < self.entries.len()
            invariant
                i <= self.entries@.len(),
                out@.len() == i,
                name_views(out@) == entry_names(self.entries@).take(i as int),
            decreases self.entries@.len() - i,
        {
            let nm = self.entries[i].0.clone();
            assert(nm@ == entry_names(self.entries@)[i as int]);
            let ghost prev = out@;
            out.push(nm);
            assert(out@ == prev.push(nm));
            assert forall|j: int| 0 <= j < i implies #[trigger] name_views(out@)[j] == entry_names(self.entries@).take(i + 1)[j] by {
                assert(name_views(prev)[j] == entry_names(self.entries@).take(i as int)[j]);
            }
            assert(name_views(out@) =~= entry_names(self.entries@).take(i + 1));
            i = i + 1;
        }
        assert(entry_names(self.entries@).take(i as int) =~= entry_names(self.entries@));
        out
    }
}

/// A stored value can be read back: after storing `value` under `name`, the name
/// holds `value`, and every other name holds what it held before.
pub proof fn lemma_read_after_insert<T>(contents: Map<Seq<char>, T>, name: Seq<char>, value: T, other: Seq<char>)
    requires
        other != name,
    ensures
        contents.insert(name, value).dom().contains(name),
        contents.insert(name, value)[name] == value,
        contents.insert(name, value).dom().contains(other) == contents.dom().contains(other),
        contents.dom().contains(other) ==> contents.insert(name, value)[other] == contents[other],
{
}

} // verus!
