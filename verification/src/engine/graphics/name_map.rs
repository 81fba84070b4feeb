use vstd::prelude::*;

verus! {

/// The views of a sequence of strings.
pub open spec fn str_views(v: Seq<String>) -> Seq<Seq<char>> {
    Seq::new(v.len(), |i: int| v[i]@)
}

/// Whether `name` is one of the strings in `v`.
pub fn contains_name(v: &Vec<String>, name: &String) -> (r: bool)
    ensures
        r == str_views(v@).contains(name@),
{
    let mut i: usize = 0;
    while i < v.len()
        invariant
            0 <= i <= v.len(),
            forall|j: int| 0 <= j < i ==> v@[j]@ != name@,
        decreases v.len() - i,
    {
        if v[i] == *name {
            assert(str_views(v@)[i as int] == name@);
            return true;
        }
        i = i + 1;
    }
    proof {
        if str_views(v@).contains(name@) {
            let j = choose|j: int| 0 <= j < str_views(v@).len() && str_views(v@)[j] == name@;
            assert(v@[j]@ == name@);
        }
    }
    false
}

/// The names of a list of entries, in order.
spec fn names_of<V>(entries: Seq<(String, V)>) -> Seq<Seq<char>> {
    Seq::new(entries.len(), |i: int| entries[i].0@)
}

/// A list of entries as a map, each name to the value of its first entry.
spec fn view_of<V>(entries: Seq<(String, V)>) -> Map<Seq<char>, V> {
    Map::new(
        |k: Seq<char>| names_of(entries).contains(k),
        |k: Seq<char>| entries[names_of(entries).index_of(k)].1,
    )
}

/// A map from names to values that remembers the order in which names were
/// first inserted.  Names are compared by their characters.
#[derive(Debug)]
pub struct NameMap<V> {
    entries: Vec<(String, V)>,
}

impl<V> View for NameMap<V> {
    type V = Map<Seq<char>, V>;

    /// The contents as a mathematical map from names to values.
    closed spec fn view(&self) -> Map<Seq<char>, V> {
        view_of(self.entries@)
    }
}

impl<V> NameMap<V> {
    /// The names, in the order in which they were first inserted.
    pub closed spec fn names(&self) -> Seq<Seq<char>> {
        names_of(self.entries@)
    }

    /// No name is stored twice.
    pub closed spec fn wf(&self) -> bool {
        self.names().no_duplicates()
    }

    /// Every map keeps its names distinct.
    #[verifier::type_invariant]
    spec fn names_distinct(&self) -> bool {
        self.wf()
    }

    /// A name is stored exactly when it occurs in the insertion order.
    pub proof fn lemma_names_are_keys(&self)
        ensures
            forall|k: Seq<char>| #[trigger] self.view().contains_key(k) <==> self.names().contains(k),
    {
    }

    /// A well-formed map stores no name twice.
    pub proof fn lemma_wf_unique(&self)
        requires
            self.wf(),
        ensures
            self.names().no_duplicates(),
    {
    }

    /// An empty map.
    pub fn new() -> (m: Self)
        ensures
            m.wf(),
            m.view() == Map::<Seq<char>, V>::empty(),
            m.names() == Seq::<Seq<char>>::empty(),
    {
        let m = NameMap { entries: Vec::new() };
        assert(m.view() =~= Map::<Seq<char>, V>::empty());
        assert(m.names() =~= Seq::<Seq<char>>::empty());
        m
    }

    /// Number of stored names.
    pub fn len(&self) -> (n: usize)
        ensures
            n == self.names().len(),
    {
        self.entries.len()
    }

    /// The name stored at a position of the insertion order.
    pub fn name_at(&self, i: usize) -> (r: &String)
        requires
            i < self.names().len(),
        ensures
            r@ == self.names()[i as int],
    {
        &self.entries[i].0
    }

    proof fn lemma_index(&self, i: int)
        requires
            self.wf(),
            0 <= i < self.names().len(),
        ensures
            self.view().contains_key(self.names()[i]),
            self.view()[self.names()[i]] == self.entries@[i].1,
    {
        let k = self.names()[i];
        assert(self.names().contains(k));
        let j = self.names().index_of(k);
        assert(self.names()[j] == k);
        assert(j == i);
    }

    /// The position of `name` in the insertion order, if it is stored.
    fn position(&self, name: &String) -> (r: Option<usize>)
        ensures
            match r {
                Some(i) => i < self.names().len() && self.names()[i as int] == name@,
                None => !self.names().contains(name@),
            },
    {
        let mut i: usize = 0;
        while i < self.entries.len()
            invariant
                0 <= i <= self.entries@.len(),
                forall|j: int| 0 <= j < i ==> self.names()[j] != name@,
            decreases self.entries@.len() - i,
        {
            if self.entries[i].0 == *name {
                return Some(i);
            }
            i = i + 1;
        }
        None
    }

    /// Whether `name` is stored.
    pub fn contains_key(&self, name: &String) -> (r: bool)
        ensures
            r == self.view().contains_key(name@),
    {
        self.position(name).is_some()
    }

    /// The value stored under `name`, if any.
    pub fn get(&self, name: &String) -> (r: Option<&V>)
        ensures
            match r {
                Some(v) => self.view().contains_key(name@) && *v == self.view()[name@],
                None => !self.view().contains_key(name@),
            },
    {
        proof {
            use_type_invariant(self);
        }
        match self.position(name) {
            Some(i) => {
                proof {
                    self.lemma_index(i as int);
                }
                Some(&self.entries[i].1)
            },
            None => None,
        }
    }

    /// Stores `value` under `name`.  A name already present keeps its place in
    /// the insertion order and its previous value is handed back.
    pub fn insert(&mut self, name: String, value: V) -> (r: Option<V>)
        ensures
            final(self).wf(),
            final(self).view() == old(self).view().insert(name@, value),
            match r {
                Some(v) => old(self).view().contains_key(name@) && v == old(self).view()[name@]
                    && final(self).names() == old(self).names(),
                None => !old(self).view().contains_key(name@) && final(self).names()
                    == old(self).names().push(name@),
            },
    {
        proof {
            use_type_invariant(&*self);
        }
        let ghost old_names = self.names();
        let ghost old_view = self.view();
        match self.position(&name) {
            Some(i) => {
                proof {
                    self.lemma_index(i as int);
                }
                let mut entries: Vec<(String, V)> = Vec::new();
                std::mem::swap(&mut entries, &mut self.entries);
                let (k, prev) = entries.remove(i);
                entries.insert(i, (k, value));
                assert(names_of(entries@) =~= old_names);
                assert forall|k2: Seq<char>| #![trigger view_of(entries@).contains_key(k2)]
                    view_of(entries@).contains_key(k2) == old_view.insert(name@, value).contains_key(k2)
                    && (view_of(entries@).contains_key(k2) ==> view_of(entries@)[k2] == old_view.insert(
                    name@,
                    value,
                )[k2]) by {
                    if names_of(entries@).contains(k2) {
                        let j = names_of(entries@).index_of(k2);
                        let j2 = old_names.index_of(k2);
                        assert(j == j2);
                        if k2 == name@ {
                            assert(j == i);
                        }
                    }
                }
                assert(view_of(entries@) =~= old_view.insert(name@, value));
                self.entries = entries;
                Some(prev)
            },
            None => {
                let mut entries: Vec<(String, V)> = Vec::new();
                std::mem::swap(&mut entries, &mut self.entries);
                entries.push((name, value));
                assert(names_of(entries@) =~= old_names.push(name@));
                assert(names_of(entries@).no_duplicates()) by {
                    assert forall|a: int, b: int|
                        0 <= a < names_of(entries@).len() && 0 <= b < names_of(entries@).len() && a != b
                            implies names_of(entries@)[a] != names_of(entries@)[b] by {
                        if a == old_names.len() {
                            assert(old_names[b] == names_of(entries@)[b]);
                        } else if b == old_names.len() {
                            assert(old_names[a] == names_of(entries@)[a]);
                        }
                    }
                }
                assert forall|k2: Seq<char>| #![trigger view_of(entries@).contains_key(k2)]
                    view_of(entries@).contains_key(k2) == old_view.insert(name@, value).contains_key(k2)
                    && (view_of(entries@).contains_key(k2) ==> view_of(entries@)[k2] == old_view.insert(
                    name@,
                    value,
                )[k2]) by {
                    if names_of(entries@).contains(k2) {
                        let j = names_of(entries@).index_of(k2);
                        if k2 == name@ {
                            assert(names_of(entries@)[old_names.len() as int] == name@);
                            assert(j == old_names.len());
                        } else {
                            assert(j < old_names.len());
                            assert(old_names[j] == k2);
                            assert(old_names.contains(k2));
                            let j2 = old_names.index_of(k2);
                            assert(j == j2);
                        }
                    } else {
                        assert(names_of(entries@)[old_names.len() as int] == name@);
                        if old_names.contains(k2) {
                            let j2 = old_names.index_of(k2);
                            assert(names_of(entries@)[j2] == k2);
                        }
                    }
                }
                assert(view_of(entries@) =~= old_view.insert(name@, value));
                self.entries = entries;
                None
            },
        }
    }

    /// Takes the value stored under `name` out of the map, if any.
    pub fn remove(&mut self, name: &String) -> (r: Option<V>)
        ensures
            final(self).wf(),
            final(self).view() == old(self).view().remove(name@),
            match r {
                Some(v) => old(self).view().contains_key(name@) && v == old(self).view()[name@],
                None => !old(self).view().contains_key(name@) && final(self).names() == old(
                    self,
                ).names(),
            },
    {
        proof {
            use_type_invariant(&*self);
        }
        let ghost old_names = self.names();
        let ghost old_view = self.view();
        match self.position(name) {
            Some(i) => {
                proof {
                    self.lemma_index(i as int);
                }
                let mut entries: Vec<(String, V)> = Vec::new();
                std::mem::swap(&mut entries, &mut self.entries);
                let (_k, v) = entries.remove(i);
                assert(names_of(entries@) =~= old_names.remove(i as int));
                assert forall|k2: Seq<char>| #![trigger view_of(entries@).contains_key(k2)]
                    view_of(entries@).contains_key(k2) == old_view.remove(name@).contains_key(k2) && (
                    view_of(entries@).contains_key(k2) ==> view_of(entries@)[k2] == old_view.remove(
                    name@,
                )[k2]) by {
                    if names_of(entries@).contains(k2) {
                        let j = names_of(entries@).index_of(k2);
                        let jo = if j < i { j } else { j + 1 };
                        assert(old_names[jo] == k2);
                        assert(old_names.contains(k2));
                        assert(old_names.index_of(k2) == jo);
                    } else if old_names.contains(k2) && k2 != name@ {
                        let jo = old_names.index_of(k2);
                        assert(jo != i);
                        let j = if jo < i { jo } else { jo - 1 };
                        assert(names_of(entries@)[j] == k2);
                    }
                }
                assert(view_of(entries@) =~= old_view.remove(name@));
                self.entries = entries;
                Some(v)
            },
            None => {
                assert(old_view.remove(name@) =~= old_view);
                None
            },
        }
    }
}

} // verus!
