use vstd::prelude::*;

use super::text::same_text;

verus! {

/// Where a plugin comes from.
#[derive(Debug, Clone, PartialEq)]
pub enum PluginSource {
    /// A local directory.
    Local { path: String },
    /// A Git repository, at a branch, tag or commit when one is named.
    Git { url: String, rev: Option<String> },
    /// A crate of crates.io.
    Crate { name: String, version: String },
}

/// One installed plugin in the registry.
#[derive(Debug, Clone, PartialEq)]
pub struct PluginEntry {
    /// The plugin's name.
    pub name: String,
    /// Its version.
    pub version: String,
    /// Whether it takes part in generation.
    pub enabled: bool,
    /// Where it came from.
    pub source: PluginSource,
    /// Where it is installed.
    pub install_path: String,
    /// When it was installed (RFC 3339).
    pub installed_at: String,
}

/// The index of installed plugins.
#[derive(Debug, Clone, PartialEq)]
pub struct PluginRegistry {
    /// The installed plugins, in installation order.
    pub plugins: Vec<PluginEntry>,
}

/// Some entry has the name.
pub open spec fn has_entry_named(s: Seq<PluginEntry>, name: Seq<char>) -> bool {
    exists|i: int| 0 <= i < s.len() && (#[trigger] s[i]).name@ == name
}

/// Entry `i` is the first with the name.
pub open spec fn is_first_named(s: Seq<PluginEntry>, name: Seq<char>, i: int) -> bool {
    &&& 0 <= i < s.len()
    &&& s[i].name@ == name
    &&& forall|j: int| 0 <= j < i ==> (#[trigger] s[j]).name@ != name
}

/// The entries whose name differs, in order.
pub open spec fn without_name(s: Seq<PluginEntry>, name: Seq<char>) -> Seq<PluginEntry>
    decreases s.len(),
{
    if s.len() == 0 {
        s
    } else if s.last().name@ == name {
        without_name(s.drop_last(), name)
    } else {
        without_name(s.drop_last(), name).push(s.last())
    }
}

/// The enabled entries, in order.
pub open spec fn enabled_entries(s: Seq<PluginEntry>) -> Seq<PluginEntry>
    decreases s.len(),
{
    if s.len() == 0 {
        s
    } else if s.last().enabled {
        enabled_entries(s.drop_last()).push(s.last())
    } else {
        enabled_entries(s.drop_last())
    }
}

/// The enabled entries are exactly the entries whose `enabled` flag is set,
/// kept in registry order: every enabled entry is listed, no disabled entry
/// is, and there are as many as there are enabled entries.
pub proof fn lemma_enabled_entries_exact(s: Seq<PluginEntry>)
    ensures
        enabled_entries(s) == s.filter(|e: PluginEntry| e.enabled),
        forall|i: int| 0 <= i < s.len() && #[trigger] s[i].enabled ==> enabled_entries(s).contains(s[i]),
        forall|k: int|
            0 <= k < enabled_entries(s).len() ==> (#[trigger] enabled_entries(s)[k]).enabled
                && s.contains(enabled_entries(s)[k]),
    decreases s.len(),
{
    reveal(Seq::filter);
    let f = |e: PluginEntry| e.enabled;
    if s.len() > 0 {
        lemma_enabled_entries_exact(s.drop_last());
    }
    assert(enabled_entries(s) == s.filter(f));
    s.filter_lemma(f);
    assert forall|k: int| 0 <= k < enabled_entries(s).len() implies (#[trigger] enabled_entries(
        s,
    )[k]).enabled && s.contains(enabled_entries(s)[k]) by {
        assert(f(s.filter(f)[k]));
    }
}

/// No two entries have the same name.
pub open spec fn names_unique(s: Seq<PluginEntry>) -> bool {
    forall|i: int, j: int|
        0 <= i < s.len() && 0 <= j < s.len() && i != j ==> (#[trigger] s[i]).name@ != (
        #[trigger] s[j]).name@
}

/// What remains after leaving out the entries with a name: no entry has that
/// name, every other entry stays, and nothing else is added.
pub proof fn lemma_without_name(s: Seq<PluginEntry>, name: Seq<char>)
    ensures
        !has_entry_named(without_name(s, name), name),
        forall|e: PluginEntry| #[trigger]
            without_name(s, name).contains(e) <==> (s.contains(e) && e.name@ != name),
        names_unique(s) ==> names_unique(without_name(s, name)),
        without_name(s, name).len() <= s.len(),
    decreases s.len(),
{
    if s.len() > 0 {
        let t = s.drop_last();
        lemma_without_name(t, name);
        let w = without_name(t, name);
        assert forall|e: PluginEntry| s.contains(e) <==> (t.contains(e) || e == s.last()) by {
            if s.contains(e) {
                let k = choose|k: int| 0 <= k < s.len() && s[k] == e;
                if k < s.len() - 1 {
                    assert(t[k] == e);
                }
            }
            if t.contains(e) {
                let k = choose|k: int| 0 <= k < t.len() && t[k] == e;
                assert(s[k] == e);
            }
            if e == s.last() {
                assert(s[s.len() - 1] == e);
            }
        }
        if s.last().name@ != name {
            let w2 = w.push(s.last());
            assert forall|e: PluginEntry| w2.contains(e) <==> (w.contains(e) || e == s.last()) by {
                if w2.contains(e) {
                    let k = choose|k: int| 0 <= k < w2.len() && w2[k] == e;
                    if k < w.len() {
                        assert(w[k] == e);
                    }
                }
                if w.contains(e) {
                    let k = choose|k: int| 0 <= k < w.len() && w[k] == e;
                    assert(w2[k] == e);
                }
                if e == s.last() {
                    assert(w2[w.len() as int] == e);
                }
            }
            assert(!has_entry_named(w2, name)) by {
                if has_entry_named(w2, name) {
                    let k = choose|k: int| 0 <= k < w2.len() && (#[trigger] w2[k]).name@ == name;
                    if k < w.len() {
                        assert(w[k] == w2[k]);
                    }
                }
            }
            if names_unique(s) {
                assert(names_unique(t)) by {
                    assert forall|i: int, j: int|
                        0 <= i < t.len() && 0 <= j < t.len() && i != j implies (#[trigger] t[i]).name@
                        != (#[trigger] t[j]).name@ by {
                        assert(t[i] == s[i] && t[j] == s[j]);
                    }
                }
                assert forall|i: int, j: int|
                    0 <= i < w2.len() && 0 <= j < w2.len() && i != j implies (#[trigger] w2[i]).name@
                    != (#[trigger] w2[j]).name@ by {
                    if i < w.len() && j < w.len() {
                        assert(w[i] == w2[i] && w[j] == w2[j]);
                    } else if i < w.len() {
                        assert(w.contains(w2[i]));
                        assert(t.contains(w2[i]));
                        let k = choose|k: int| 0 <= k < t.len() && t[k] == w2[i];
                        assert(s[k] == w2[i]);
                        assert(w2[j] == s[s.len() - 1]);
                    } else {
                        assert(w.contains(w2[j]));
                        assert(t.contains(w2[j]));
                        let k = choose|k: int| 0 <= k < t.len() && t[k] == w2[j];
                        assert(s[k] == w2[j]);
                        assert(w2[i] == s[s.len() - 1]);
                    }
                }
            }
        } else {
            if names_unique(s) {
                assert forall|i: int, j: int|
                    0 <= i < t.len() && 0 <= j < t.len() && i != j implies (#[trigger] t[i]).name@
                    != (#[trigger] t[j]).name@ by {
                    assert(t[i] == s[i] && t[j] == s[j]);
                }
            }
        }
    }
}

/// After `add`, looking the name up finds the added entry, and it is the
/// only entry of that name.
pub proof fn lemma_find_after_add(s: Seq<PluginEntry>, e: PluginEntry)
    ensures
        is_first_named(
            without_name(s, e.name@).push(e),
            e.name@,
            without_name(s, e.name@).len() as int,
        ),
        without_name(s, e.name@).push(e)[without_name(s, e.name@).len() as int] == e,
        forall|j: int|
            0 <= j < without_name(s, e.name@).len() ==> (#[trigger] without_name(
                s,
                e.name@,
            ).push(e)[j]).name@ != e.name@,
{
    let w = without_name(s, e.name@);
    lemma_without_name(s, e.name@);
    assert forall|j: int| 0 <= j < w.len() implies (#[trigger] w.push(e)[j]).name@ != e.name@ by {
        assert(w.push(e)[j] == w[j]);
        if w[j].name@ == e.name@ {
            assert(has_entry_named(w, e.name@));
        }
    }
}

/// Adding keeps the names of a registry unique.
pub proof fn lemma_add_keeps_names_unique(s: Seq<PluginEntry>, e: PluginEntry)
    requires
        names_unique(s),
    ensures
        names_unique(without_name(s, e.name@).push(e)),
{
    let w = without_name(s, e.name@);
    lemma_find_after_add(s, e);
    lemma_without_name(s, e.name@);
    let t = w.push(e);
    assert forall|i: int, j: int|
        0 <= i < t.len() && 0 <= j < t.len() && i != j implies (#[trigger] t[i]).name@ != (
        #[trigger] t[j]).name@ by {
        if i < w.len() && j < w.len() {
            assert(t[i] == w[i] && t[j] == w[j]);
        }
    }
}

/// In a registry whose names are unique, removing a name leaves no entry of
/// that name, so looking it up finds nothing.
pub proof fn lemma_nothing_found_after_remove(s: Seq<PluginEntry>, name: Seq<char>, i: int)
    requires
        names_unique(s),
        is_first_named(s, name, i),
    ensures
        !has_entry_named(s.remove(i), name),
        names_unique(s.remove(i)),
{
    let t = s.remove(i);
    if has_entry_named(t, name) {
        let k = choose|k: int| 0 <= k < t.len() && (#[trigger] t[k]).name@ == name;
        if k < i {
            assert(t[k] == s[k]);
        } else {
            assert(t[k] == s[k + 1]);
            assert(s[i].name@ != s[k + 1].name@);
        }
    }
    assert forall|a: int, b: int|
        0 <= a < t.len() && 0 <= b < t.len() && a != b implies (#[trigger] t[a]).name@ != (
        #[trigger] t[b]).name@ by {
        let a2 = if a < i { a } else { a + 1 };
        let b2 = if b < i { b } else { b + 1 };
        assert(t[a] == s[a2] && t[b] == s[b2]);
    }
}

impl Default for PluginRegistry {
    /// The empty registry.
    fn default() -> (r: Self)
        ensures
            r.plugins@.len() == 0,
    {
        PluginRegistry { plugins: Vec::new() }
    }
}

impl PluginRegistry {
    /// The position of the first entry with a name.
    fn position(&self, name: &str) -> (r: Option<usize>)
        ensures
            match r {
                Some(i) => is_first_named(self.plugins@, name@, i as int),
                None => !has_entry_named(self.plugins@, name@),
            },
    {
        let n = self.plugins.len();
        let mut i: usize = 0;
        while i < n
            invariant
                n == self.plugins@.len(),
                i <= n,
                forall|j: int| 0 <= j < i ==> (#[trigger] self.plugins@[j]).name@ != name@,
            decreases n - i,
        {
            if same_text(self.plugins[i].name.as_str(), name) {
                return Some(i);
            }
            i = i + 1;
        }
        None
    }

    /// Adds an entry, replacing every entry of the same name: the others keep
    /// their order and the new entry comes last.
    pub fn add(&mut self, entry: PluginEntry)
        ensures
            final(self).plugins@ == without_name(old(self).plugins@, entry.name@).push(entry),
    {
        let ghost name = entry.name@;
        let mut rest: Vec<PluginEntry> = Vec::new();
        std::mem::swap(&mut rest, &mut self.plugins);
        let ghost orig = rest@;
        let mut kept: Vec<PluginEntry> = Vec::new();
        proof {
            assert(orig.take(0) =~= Seq::<PluginEntry>::empty());
            assert(orig.skip(0) =~= orig);
        }
        while rest.len() > 0
            invariant
                name == entry.name@,
                0 <= orig.len() - rest@.len() <= orig.len(),
                rest@ == orig.skip(orig.len() - rest@.len()),
                kept@ == without_name(orig.take(orig.len() - rest@.len()), name),
            decreases rest@.len(),
        {
            let ghost k = orig.len() - rest@.len();
            let e = rest.remove(0);
            proof {
                assert(orig[k] == e);
                assert(orig.take(k + 1).drop_last() =~= orig.take(k));
                assert(rest@ =~= orig.skip(k + 1));
                let t = orig.take(k + 1);
                assert(t.last() == e);
                assert(without_name(t, name) == if e.name@ == name {
                    without_name(orig.take(k), name)
                } else {
                    without_name(orig.take(k), name).push(e)
                });
            }
            if !same_text(e.name.as_str(), entry.name.as_str()) {
                kept.push(e);
            }
        }
        proof {
            assert(orig.take(orig.len() as int) =~= orig);
        }
        kept.push(entry);
        self.plugins = kept;
    }

    /// Removes the first entry with a name and returns it.
    pub fn remove(&mut self, name: &str) -> (r: Option<PluginEntry>)
        ensures
            match r {
                Some(e) => exists|i: int|
                    #[trigger] is_first_named(old(self).plugins@, name@, i) && e == old(self).plugins@[i]
                        && final(self).plugins@ == old(self).plugins@.remove(i),
                None => !has_entry_named(old(self).plugins@, name@) && final(self).plugins@ == old(self).plugins@,
            },
    {
        match self.position(name) {
            Some(pos) => {
                let e = self.plugins.remove(pos);
                Some(e)
            },
            None => None,
        }
    }

    /// The first entry with a name.
    pub fn find(&self, name: &str) -> (r: Option<&PluginEntry>)
        ensures
            match r {
                Some(e) => exists|i: int| #[trigger] is_first_named(self.plugins@, name@, i) && *e == self.plugins@[i],
                None => !has_entry_named(self.plugins@, name@),
            },
    {
        match self.position(name) {
            Some(pos) => Some(&self.plugins[pos]),
            None => None,
        }
    }

    /// The first entry with a name, to change in place.
    pub fn find_mut(&mut self, name: &str) -> (r: Option<&mut PluginEntry>)
        ensures
            match r {
                Some(e) => exists|i: int|
                    #[trigger] is_first_named(old(self).plugins@, name@, i) && *e == old(self).plugins@[i]
                        && final(self).plugins@ == old(self).plugins@.update(i, *final(e)),
                None => !has_entry_named(old(self).plugins@, name@) && final(self).plugins@ == old(self).plugins@,
            },
    {
        match self.position(name) {
            Some(pos) => Some(&mut self.plugins[pos]),
            None => None,
        }
    }

    /// The enabled entries, in registry order.
    pub fn enabled_plugins(&self) -> (r: Vec<&PluginEntry>)
        ensures
            r@.map_values(|e: &PluginEntry| *e) == enabled_entries(self.plugins@),
            r@.map_values(|e: &PluginEntry| *e) == self.plugins@.filter(|e: PluginEntry| e.enabled),
    {
        let n = self.plugins.len();
        let mut r: Vec<&PluginEntry> = Vec::new();
        let mut i: usize = 0;
        while i < n
            invariant
                n == self.plugins@.len(),
                i <= n,
                r@.map_values(|e: &PluginEntry| *e) == enabled_entries(self.plugins@.take(i as int)),
            decreases n - i,
        {
            proof {
                let t = self.plugins@.take(i + 1);
                assert(t.drop_last() =~= self.plugins@.take(i as int));
            }
            let e = &self.plugins[i];
            if e.enabled {
                let ghost before = r@;
                r.push(e);
                proof {
                    assert(r@.map_values(|e: &PluginEntry| *e) =~= before.map_values(
                        |e: &PluginEntry| *e,
                    ).push(*e));
                }
            }
            i = i + 1;
        }
        proof {
            assert(self.plugins@.take(n as int) =~= self.plugins@);
            lemma_enabled_entries_exact(self.plugins@);
        }
        r
    }
}

} // verus!
