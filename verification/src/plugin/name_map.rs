use vstd::prelude::*;

use super::text::same_text;

verus! {

/// A map from names to values in which every name occurs once; entries keep
/// the order in which their names were first inserted.
#[derive(Debug, PartialEq)]
pub struct NameMap<V> {
    entries: Vec<(String, V)>,
}

/// The map that a sequence of (name, value) entries stands for; later entries
/// win over earlier ones with the same name.
pub open spec fn entries_to_map<V>(s: Seq<(Seq<char>, V)>) -> Map<Seq<char>, V>
    decreases s.len(),
{
    if s.len() == 0 {
        Map::empty()
    } else {
        entries_to_map(s.drop_last()).insert(s.last().0, s.last().1)
    }
}

/// The names of a sequence of entries, in order.
pub open spec fn entry_keys<V>(s: Seq<(Seq<char>, V)>) -> Seq<Seq<char>> {
    s.map_values(|e: (Seq<char>, V)| e.0)
}

/// The entries a map holds after the entries of `s` are inserted in order
/// into an empty map: a name already present keeps its place and takes the
/// new value; a new name goes at the end.
pub open spec fn inserted_entries<V>(s: Seq<(Seq<char>, V)>) -> Seq<(Seq<char>, V)>
    decreases s.len(),
{
    if s.len() == 0 {
        Seq::empty()
    } else {
        let e = inserted_entries(s.drop_last());
        let k = s.last().0;
        if entry_keys(e).contains(k) {
            e.update(entry_keys(e).index_of(k), s.last())
        } else {
            e.push(s.last())
        }
    }
}

/// With distinct names, the map of the entries holds exactly their names, each
/// with its own value.
pub proof fn lemma_entries_to_map<V>(s: Seq<(Seq<char>, V)>)
    requires
        entry_keys(s).no_duplicates(),
    ensures
        forall|k: Seq<char>| #[trigger]
            entries_to_map(s).dom().contains(k) <==> entry_keys(s).contains(k),
        forall|i: int|
            #![trigger s[i]]
            0 <= i < s.len() ==> entries_to_map(s).dom().contains(s[i].0) && entries_to_map(s)[s[i].0]
                == s[i].1,
    decreases s.len(),
{
    if s.len() > 0 {
        let t = s.drop_last();
        let last = s.last();
        assert(entry_keys(s) =~= entry_keys(t).push(last.0));
        assert(entry_keys(t).no_duplicates()) by {
            assert forall|i: int, j: int|
                0 <= i < entry_keys(t).len() && 0 <= j < entry_keys(t).len() && i != j implies
                entry_keys(t)[i] != entry_keys(t)[j] by {
                assert(entry_keys(t)[i] == entry_keys(s)[i]);
                assert(entry_keys(t)[j] == entry_keys(s)[j]);
            }
        }
        lemma_entries_to_map(t);
        assert forall|k: Seq<char>| #[trigger]
            entries_to_map(s).dom().contains(k) <==> entry_keys(s).contains(k) by {
            if entry_keys(s).contains(k) {
                let j = choose|j: int| 0 <= j < entry_keys(s).len() && entry_keys(s)[j] == k;
                if j < s.len() - 1 {
                    assert(entry_keys(t)[j] == k);
                    assert(entry_keys(t).contains(k));
                }
            }
            if entries_to_map(t).dom().contains(k) {
                assert(entry_keys(t).contains(k));
                let j = choose|j: int| 0 <= j < entry_keys(t).len() && entry_keys(t)[j] == k;
                assert(entry_keys(s)[j] == k);
            }
            if k == last.0 {
                assert(entry_keys(s)[s.len() - 1] == k);
            }
        }
        assert forall|i: int|
            #![trigger s[i]]
            0 <= i < s.len() implies entries_to_map(s).dom().contains(s[i].0) && entries_to_map(
                s,
            )[s[i].0] == s[i].1 by {
            assert(entry_keys(s)[i] == s[i].0);
            if i < s.len() - 1 {
                assert(entry_keys(s)[i] != entry_keys(s)[s.len() - 1]);
                assert(t[i] == s[i]);
                assert(entries_to_map(t).dom().contains(t[i].0));
                assert(entries_to_map(t)[t[i].0] == t[i].1);
            }
        }
    }
}

impl<V> NameMap<V> {
    /// The entries, names taken by their characters.
    pub closed spec fn entry_seq(&self) -> Seq<(Seq<char>, V)> {
        self.entries@.map_values(|e: (String, V)| (e.0@, e.1))
    }

    /// The names in entry order.
    pub open spec fn key_seq(&self) -> Seq<Seq<char>> {
        entry_keys(self.entry_seq())
    }

    /// The names are distinct.
    #[verifier::type_invariant]
    pub open spec fn distinct_names(&self) -> bool {
        self.key_seq().no_duplicates()
    }

    /// The map view, as a proof fact for a value at hand.
    pub proof fn lemma_view(&self)
        requires
            self.key_seq().no_duplicates(),
        ensures
            forall|k: Seq<char>| #[trigger]
                self@.dom().contains(k) <==> self.key_seq().contains(k),
            forall|i: int|
                #![trigger self.entry_seq()[i]]
                0 <= i < self.entry_seq().len() ==> self@.dom().contains(self.entry_seq()[i].0)
                    && self@[self.entry_seq()[i].0] == self.entry_seq()[i].1,
    {
        lemma_entries_to_map(self.entry_seq());
    }

    /// The empty map.
    pub fn new() -> (r: Self)
        ensures
            r.entry_seq() == Seq::<(Seq<char>, V)>::empty(),
            r@ == Map::<Seq<char>, V>::empty(),
    {
        let r = NameMap { entries: Vec::new() };
        assert(r.entry_seq() =~= Seq::<(Seq<char>, V)>::empty());
        r
    }

    /// The number of entries.
    pub fn len(&self) -> (r: usize)
        ensures
            r == self.entry_seq().len(),
    {
        self.entries.len()
    }

    /// The name of the entry at a position.
    pub fn key_at(&self, i: usize) -> (r: &String)
        requires
            i < self.entry_seq().len(),
        ensures
            r@ == self.entry_seq()[i as int].0,
    {
        &self.entries[i].0
    }

    /// The value of the entry at a position.
    pub fn value_at(&self, i: usize) -> (r: &V)
        requires
            i < self.entry_seq().len(),
        ensures
            *r == self.entry_seq()[i as int].1,
    {
        &self.entries[i].1
    }

    /// The position of the entry with a name, if there is one.
    pub fn position(&self, name: &str) -> (r: Option<usize>)
        ensures
            match r {
                Some(i) => i < self.entry_seq().len() && self.entry_seq()[i as int].0 == name@,
                None => !self.key_seq().contains(name@),
            },
    {
        let n = self.entries.len();
        let mut i: usize = 0;
        while i < n
            invariant
                n == self.entries@.len(),
                i <= n,
                forall|j: int| 0 <= j < i ==> self.key_seq()[j] != name@,
            decreases n - i,
        {
            if same_text(self.entries[i].0.as_str(), name) {
                return Some(i);
            }
            i = i + 1;
        }
        proof {
            if self.key_seq().contains(name@) {
                let j = choose|j: int| 0 <= j < self.key_seq().len() && self.key_seq()[j] == name@;
                assert(self.key_seq()[j] != name@);
            }
        }
        None
    }

    /// Whether a name has an entry.
    pub fn contains_key(&self, name: &str) -> (r: bool)
        ensures
            r == self@.dom().contains(name@),
    {
        proof {
            use_type_invariant(self);
            self.lemma_view();
        }
        let p = self.position(name);
        proof {
            if let Some(i) = p {
                assert(self.key_seq()[i as int] == name@);
            }
        }
        p.is_some()
    }

    /// The value stored under a name.
    pub fn get(&self, name: &str) -> (r: Option<&V>)
        ensures
            match r {
                Some(v) => self@.dom().contains(name@) && *v == self@[name@],
                None => !self@.dom().contains(name@),
            },
    {
        proof {
            use_type_invariant(self);
            self.lemma_view();
        }
        match self.position(name) {
            Some(i) => {
                proof {
                    assert(self.key_seq()[i as int] == name@);
                }
                Some(&self.entries[i].1)
            },
            None => None,
        }
    }

    /// Stores a value under a name: an entry with that name has its value
    /// replaced in place; otherwise a new entry is appended.
    pub fn insert(&mut self, name: String, value: V)
        ensures
            final(self)@ == old(self)@.insert(name@, value),
            old(self).key_seq().contains(name@) ==> final(self).entry_seq() == old(self).entry_seq().update(old(self).key_seq().index_of(name@), (name@, value)),
            !old(self).key_seq().contains(name@) ==> final(self).entry_seq() == old(self).entry_seq().push((name@, value)),
    {
        proof {
            use_type_invariant(&*self);
        }
        let ghost old_entries = self.entry_seq();
        let pos = self.position(name.as_str());
        let mut entries: Vec<(String, V)> = Vec::new();
        std::mem::swap(&mut entries, &mut self.entries);
        let ghost name_view = name@;
        match pos {
            Some(i) => {
                proof {
                    let ks = entry_keys(old_entries);
                    assert(ks[i as int] == name_view);
                    assert(ks.index_of(name_view) == i) by {
                        let j = ks.index_of(name_view);
                        assert(ks.contains(name_view));
                        assert(ks[j] == name_view);
                    }
                }
                entries.set(i, (name, value));
            },
            None => {
                entries.push((name, value));
            },
        }
        proof {
            let s = entries@.map_values(|e: (String, V)| (e.0@, e.1));
            match pos {
                Some(i) => {
                    assert(s =~= old_entries.update(i as int, (name_view, value)));
                    assert(entry_keys(s) =~= entry_keys(old_entries).update(i as int, name_view));
                },
                None => {
                    assert(s =~= old_entries.push((name_view, value)));
                    assert(entry_keys(s) =~= entry_keys(old_entries).push(name_view));
                },
            }
            assert(entry_keys(s).no_duplicates()) by {
                assert forall|x: int, y: int|
                    0 <= x < entry_keys(s).len() && 0 <= y < entry_keys(s).len() && x != y implies
                    entry_keys(s)[x] != entry_keys(s)[y] by {
                    match pos {
                        Some(i) => {
                            if x != i && y != i {
                                assert(entry_keys(s)[x] == entry_keys(old_entries)[x]);
                                assert(entry_keys(s)[y] == entry_keys(old_entries)[y]);
                            }
                        },
                        None => {
                            if x < old_entries.len() && y < old_entries.len() {
                                assert(entry_keys(s)[x] == entry_keys(old_entries)[x]);
                                assert(entry_keys(s)[y] == entry_keys(old_entries)[y]);
                            } else if x < old_entries.len() {
                                assert(entry_keys(old_entries)[x] == entry_keys(s)[x]);
                                assert(entry_keys(old_entries).contains(entry_keys(s)[x]));
                            } else {
                                assert(entry_keys(old_entries)[y] == entry_keys(s)[y]);
                                assert(entry_keys(old_entries).contains(entry_keys(s)[y]));
                            }
                        },
                    }
                }
            }
            lemma_entries_to_map(old_entries);
            lemma_entries_to_map(s);
            assert(entries_to_map(s) =~= entries_to_map(old_entries).insert(name_view, value)) by {
                assert forall|k: Seq<char>| #[trigger] entries_to_map(s).dom().contains(k) implies entries_to_map(s)[k]
                    == entries_to_map(old_entries).insert(name_view, value)[k] by {
                    let j = choose|j: int| 0 <= j < entry_keys(s).len() && entry_keys(s)[j] == k;
                    assert(s[j].0 == k);
                }
                assert forall|k: Seq<char>|
                    entries_to_map(old_entries).insert(name_view, value).dom().contains(
                        k,
                    ) implies #[trigger] entries_to_map(s).dom().contains(k) by {
                    if k != name_view {
                        let j = choose|j: int|
                            0 <= j < entry_keys(old_entries).len() && entry_keys(old_entries)[j]
                                == k;
                        assert(entry_keys(s)[j] == k);
                    } else {
                        match pos {
                            Some(i) => assert(entry_keys(s)[i as int] == k),
                            None => assert(entry_keys(s)[s.len() - 1] == k),
                        }
                    }
                }
            }
        }
        self.entries = entries;
    }
}

impl<V> NameMap<V> {
    /// Takes the value stored under a name out of the map; the other entries
    /// keep their order.
    pub fn remove(&mut self, name: &str) -> (r: Option<V>)
        ensures
            match r {
                Some(v) => old(self)@.dom().contains(name@) && v == old(self)@[name@],
                None => !old(self)@.dom().contains(name@),
            },
            final(self)@ == old(self)@.remove(name@),
    {
        proof {
            use_type_invariant(&*self);
            self.lemma_view();
        }
        let ghost old_entries = self.entry_seq();
        match self.position(name) {
            Some(i) => {
                let mut entries: Vec<(String, V)> = Vec::new();
                std::mem::swap(&mut entries, &mut self.entries);
                let ghost before = entries@;
                let (_, v) = entries.remove(i);
                proof {
                    let ks = entry_keys(old_entries);
                    let s = entries@.map_values(|e: (String, V)| (e.0@, e.1));
                    assert(s =~= old_entries.remove(i as int));
                    assert(entry_keys(s) =~= ks.remove(i as int));
                    assert(entry_keys(s).no_duplicates()) by {
                        assert forall|x: int, y: int|
                            0 <= x < entry_keys(s).len() && 0 <= y < entry_keys(s).len() && x != y
                                implies entry_keys(s)[x] != entry_keys(s)[y] by {
                            let x2 = if x < i { x } else { x + 1 };
                            let y2 = if y < i { y } else { y + 1 };
                            assert(entry_keys(s)[x] == ks[x2]);
                            assert(entry_keys(s)[y] == ks[y2]);
                        }
                    }
                    lemma_entries_to_map(old_entries);
                    lemma_entries_to_map(s);
                    assert(ks[i as int] == name@);
                    assert(old_entries[i as int].1 == v);
                    assert(entries_to_map(s) =~= entries_to_map(old_entries).remove(name@)) by {
                        assert forall|k: Seq<char>| #[trigger] entries_to_map(s).dom().contains(k)
                            implies entries_to_map(old_entries).remove(name@).dom().contains(k)
                            && entries_to_map(s)[k] == entries_to_map(old_entries)[k] by {
                            let j = choose|j: int| 0 <= j < entry_keys(s).len() && entry_keys(s)[j] == k;
                            let j2 = if j < i { j } else { j + 1 };
                            assert(s[j] == old_entries[j2]);
                            assert(ks[j2] == k);
                            assert(j2 != i);
                        }
                        assert forall|k: Seq<char>|
                            entries_to_map(old_entries).remove(name@).dom().contains(k) implies
                            #[trigger] entries_to_map(s).dom().contains(k) by {
                            let j = choose|j: int| 0 <= j < ks.len() && ks[j] == k;
                            assert(j != i);
                            let j2 = if j < i { j } else { j - 1 };
                            assert(entry_keys(s)[j2] == k);
                        }
                    }
                }
                self.entries = entries;
                Some(v)
            },
            None => None,
        }
    }
}

impl<V: Clone> Clone for NameMap<V> {
    /// A copy with the same names in the same order, each value cloned.
    fn clone(&self) -> (r: Self)
        ensures
            r.key_seq() == self.key_seq(),
            r.entry_seq().len() == self.entry_seq().len(),
            forall|i: int|
                0 <= i < self.entry_seq().len() ==> cloned(
                    self.entry_seq()[i].1,
                    #[trigger] r.entry_seq()[i].1,
                ),
    {
        proof {
            use_type_invariant(self);
        }
        let n = self.entries.len();
        let mut entries: Vec<(String, V)> = Vec::new();
        let mut i: usize = 0;
        while i < n
            invariant
                n == self.entries@.len(),
                i <= n,
                entries@.len() == i,
                forall|j: int|
                    0 <= j < i ==> (#[trigger] entries@[j]).0@ == self.entries@[j].0@ && cloned(
                        self.entries@[j].1,
                        entries@[j].1,
                    ),
            decreases n - i,
        {
            let k = self.entries[i].0.clone();
            let v = self.entries[i].1.clone();
            entries.push((k, v));
            i = i + 1;
        }
        let ghost s = entries@.map_values(|e: (String, V)| (e.0@, e.1));
        assert(entry_keys(s) =~= self.key_seq());
        NameMap { entries }
    }
}

impl<V> View for NameMap<V> {
    type V = Map<Seq<char>, V>;

    open spec fn view(&self) -> Map<Seq<char>, V> {
        entries_to_map(self.entry_seq())
    }
}

} // verus!
