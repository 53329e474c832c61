use vstd::prelude::*;

use super::error::PluginError;
use super::manifest::PluginManifest;
use super::name_map::NameMap;
use super::text::{
    less_text, lemma_text_less_asymmetric, lemma_text_less_total, lemma_text_less_transitive, text_less,
};
use super::version::{
    matches_requirement, parse_requirement, parse_version, requirement_matches, requirement_parses,
    version_parses,
};

verus! {

// ---------------------------------------------------------------------------
// The dependency graph of a set of installed plugins.
// ---------------------------------------------------------------------------

/// Installed plugin `u` depends on installed plugin `v`.
pub open spec fn depends_on(plugins: Map<Seq<char>, PluginManifest>, u: Seq<char>, v: Seq<char>) -> bool {
    &&& plugins.dom().contains(u)
    &&& plugins.dom().contains(v)
    &&& plugins[u].dependencies@.dom().contains(v)
}

/// A circle of dependencies: each name depends on the next, and the last name
/// is the first one again.
pub open spec fn is_dependency_cycle(plugins: Map<Seq<char>, PluginManifest>, c: Seq<Seq<char>>) -> bool {
    &&& c.len() >= 2
    &&& c[0] == c[c.len() - 1]
    &&& forall|i: int| 0 <= i < c.len() - 1 ==> depends_on(plugins, #[trigger] c[i], c[i + 1])
}

/// Some installed plugins depend on each other in a circle.
pub open spec fn has_dependency_cycle(plugins: Map<Seq<char>, PluginManifest>) -> bool {
    exists|c: Seq<Seq<char>>| is_dependency_cycle(plugins, c)
}

/// A load order: every installed plugin once, and no plugin before one it
/// depends on.
pub open spec fn is_load_order(plugins: Map<Seq<char>, PluginManifest>, order: Seq<Seq<char>>) -> bool {
    &&& order.no_duplicates()
    &&& forall|k: Seq<char>| #[trigger] plugins.dom().contains(k) <==> order.contains(k)
    &&& forall|i: int, j: int|
        0 <= i < j < order.len() ==> !depends_on(plugins, #[trigger] order[i], #[trigger] order[j])
}

/// The position in `order` of the last of its first `t` plugins that `name`
/// depends on; -1 when it depends on none of them.
pub open spec fn last_dependency_before(
    plugins: Map<Seq<char>, PluginManifest>,
    order: Seq<Seq<char>>,
    name: Seq<char>,
    t: int,
) -> int
    decreases t,
{
    if t <= 0 {
        -1
    } else if depends_on(plugins, name, order[t - 1]) {
        t - 1
    } else {
        last_dependency_before(plugins, order, name, t - 1)
    }
}

/// The order in which Kahn's algorithm takes the plugins when ready plugins
/// are queued by name: plugins come by the position of their last dependency
/// (those without one first), and plugins whose last dependency is the same
/// come by name.
pub open spec fn is_ready_order(plugins: Map<Seq<char>, PluginManifest>, order: Seq<Seq<char>>) -> bool {
    forall|i: int, j: int|
        0 <= i < j < order.len() ==> {
            let a = last_dependency_before(plugins, order, #[trigger] order[i], order.len() as int);
            let b = last_dependency_before(plugins, order, #[trigger] order[j], order.len() as int);
            a < b || (a == b && text_less(order[i], order[j]))
        }
}

/// What the last dependency position is: -1 or a position before `t` holding
/// a dependency, with no dependency after it.
proof fn lemma_last_dependency_before_facts(
    plugins: NameMap<PluginManifest>,
    order: Seq<Seq<char>>,
    name: Seq<char>,
    t: int,
)
    requires
        0 <= t <= order.len(),
    ensures
        -1 <= last_dependency_before(plugins@, order, name, t) < t,
        last_dependency_before(plugins@, order, name, t) >= 0 ==> depends_on(
            plugins@,
            name,
            order[last_dependency_before(plugins@, order, name, t)],
        ),
        forall|s: int|
            last_dependency_before(plugins@, order, name, t) < s < t ==> !depends_on(
                plugins@,
                name,
                #[trigger] order[s],
            ),
    decreases t,
{
    if t > 0 {
        lemma_last_dependency_before_facts(plugins, order, name, t - 1);
    }
}

/// The last dependency position is `r` when `name` depends on the plugin at
/// `r` and on none after it.
proof fn lemma_last_dependency_before_is(
    plugins: NameMap<PluginManifest>,
    order: Seq<Seq<char>>,
    name: Seq<char>,
    t: int,
    r: int,
)
    requires
        -1 <= r < t <= order.len(),
        r >= 0 ==> depends_on(plugins@, name, order[r]),
        forall|s: int| r < s < t ==> !depends_on(plugins@, name, #[trigger] order[s]),
    ensures
        last_dependency_before(plugins@, order, name, t) == r,
    decreases t,
{
    if t - 1 > r {
        assert(!depends_on(plugins@, name, order[t - 1]));
        lemma_last_dependency_before_is(plugins, order, name, t - 1, r);
    }
}

/// Two load orders that agree on their first `k` plugins give a plugin among
/// the rest, all of whose dependencies lie in that common part, the same
/// last dependency position.
proof fn lemma_same_last_dependency(
    plugins: NameMap<PluginManifest>,
    o1: Seq<Seq<char>>,
    o2: Seq<Seq<char>>,
    k: int,
    x: Seq<char>,
)
    requires
        o1.len() == o2.len(),
        0 <= k <= o1.len(),
        o1.take(k) == o2.take(k),
        o1.no_duplicates(),
        o2.no_duplicates(),
        forall|d: Seq<char>|
            #[trigger] depends_on(plugins@, x, d) ==> exists|j: int| 0 <= j < k && o1[j] == d,
    ensures
        last_dependency_before(plugins@, o1, x, o1.len() as int) == last_dependency_before(
            plugins@,
            o2,
            x,
            o2.len() as int,
        ),
{
    let n = o1.len() as int;
    lemma_last_dependency_before_facts(plugins, o1, x, n);
    let r = last_dependency_before(plugins@, o1, x, n);
    if r >= 0 {
        let j = choose|j: int| 0 <= j < k && o1[j] == o1[r];
        assert(j == r);
        assert(o1.take(k)[r] == o2.take(k)[r]);
    }
    assert forall|s: int| r < s < n implies !depends_on(plugins@, x, #[trigger] o2[s]) by {
        if depends_on(plugins@, x, o2[s]) {
            let j = choose|j: int| 0 <= j < k && o1[j] == o2[s];
            assert(o1.take(k)[j] == o2.take(k)[j]);
            assert(o2[j] == o2[s]);
            assert(j == s);
            assert(o1.take(k)[s] == o2.take(k)[s]);
            assert(o1[s] == o2[s]);
        }
    }
    lemma_last_dependency_before_is(plugins, o2, x, n, r);
}

/// Every dependency of the plugin at position `k` of a load order lies before
/// it, when no plugins depend on each other in a circle.
proof fn lemma_dependencies_before(
    plugins: NameMap<PluginManifest>,
    o: Seq<Seq<char>>,
    k: int,
    d: Seq<char>,
)
    requires
        !has_dependency_cycle(plugins@),
        is_load_order(plugins@, o),
        0 <= k < o.len(),
        depends_on(plugins@, o[k], d),
    ensures
        exists|j: int| 0 <= j < k && o[j] == d,
{
    assert(plugins@.dom().contains(d));
    assert(o.contains(d));
    let j = choose|j: int| 0 <= j < o.len() && o[j] == d;
    if j == k {
        let c = seq![o[k], o[k]];
        assert(is_dependency_cycle(plugins@, c));
    } else if j > k {
        assert(!depends_on(plugins@, o[k], o[j]));
    }
}

/// Two ready load orders that agree on their first `k` plugins agree on all.
proof fn lemma_ready_orders_agree_from(
    plugins: NameMap<PluginManifest>,
    o1: Seq<Seq<char>>,
    o2: Seq<Seq<char>>,
    k: int,
)
    requires
        !has_dependency_cycle(plugins@),
        is_load_order(plugins@, o1),
        is_ready_order(plugins@, o1),
        is_load_order(plugins@, o2),
        is_ready_order(plugins@, o2),
        o1.len() == o2.len(),
        0 <= k <= o1.len(),
        o1.take(k) == o2.take(k),
    ensures
        o1 == o2,
    decreases o1.len() - k,
{
    if k == o1.len() {
        assert(o1 =~= o1.take(k));
        assert(o2 =~= o2.take(k));
    } else if o1[k] == o2[k] {
        assert(o1.take(k + 1) =~= o1.take(k).push(o1[k]));
        assert(o2.take(k + 1) =~= o2.take(k).push(o2[k]));
        lemma_ready_orders_agree_from(plugins, o1, o2, k + 1);
    } else {
        let x = o1[k];
        let y = o2[k];
        assert(o1.contains(x));
        assert(plugins@.dom().contains(x));
        assert(o2.contains(x));
        let p2 = choose|p: int| 0 <= p < o2.len() && o2[p] == x;
        if p2 < k {
            assert(o1.take(k)[p2] == o2.take(k)[p2]);
            assert(o1[p2] == o1[k]);
        }
        assert(o2.contains(y));
        assert(plugins@.dom().contains(y));
        assert(o1.contains(y));
        let p1 = choose|p: int| 0 <= p < o1.len() && o1[p] == y;
        if p1 < k {
            assert(o1.take(k)[p1] == o2.take(k)[p1]);
            assert(o2[p1] == o2[k]);
        }
        assert forall|d: Seq<char>| #[trigger] depends_on(plugins@, x, d) implies exists|j: int|
            0 <= j < k && o1[j] == d by {
            lemma_dependencies_before(plugins, o1, k, d);
        }
        assert forall|d: Seq<char>| #[trigger] depends_on(plugins@, y, d) implies exists|j: int|
            0 <= j < k && o1[j] == d by {
            lemma_dependencies_before(plugins, o2, k, d);
            let j = choose|j: int| 0 <= j < k && o2[j] == d;
            assert(o1.take(k)[j] == o2.take(k)[j]);
            assert(o1[j] == d);
        }
        lemma_same_last_dependency(plugins, o1, o2, k, x);
        lemma_same_last_dependency(plugins, o1, o2, k, y);
        let n = o1.len() as int;
        assert(o1[k] == x && o1[p1] == y);
        assert(o2[k] == y && o2[p2] == x);
        lemma_text_less_asymmetric(x, y);
    }
}

/// A ready load order is unique: when the plugins do not depend on each other
/// in a circle, two orders that each take every plugin after its
/// dependencies, by the position of its last dependency and then by name,
/// are the same.
pub proof fn lemma_ready_order_unique(
    plugins: NameMap<PluginManifest>,
    o1: Seq<Seq<char>>,
    o2: Seq<Seq<char>>,
)
    requires
        !has_dependency_cycle(plugins@),
        is_load_order(plugins@, o1),
        is_ready_order(plugins@, o1),
        is_load_order(plugins@, o2),
        is_ready_order(plugins@, o2),
    ensures
        o1 == o2,
{
    o1.unique_seq_to_set();
    o2.unique_seq_to_set();
    assert(o1.to_set() =~= o2.to_set()) by {
        assert forall|x: Seq<char>| o1.to_set().contains(x) <==> o2.to_set().contains(x) by {
            assert(o1.contains(x) <==> plugins@.dom().contains(x));
            assert(o2.contains(x) <==> plugins@.dom().contains(x));
        }
    }
    assert(o1.take(0) =~= o2.take(0));
    lemma_ready_orders_agree_from(plugins, o1, o2, 0);
}

/// The number of installed plugins.
pub open spec fn node_count(plugins: NameMap<PluginManifest>) -> int {
    plugins.entry_seq().len() as int
}

/// Plugin number `i` (in entry order) depends on plugin number `j`.
pub open spec fn edge(plugins: NameMap<PluginManifest>, i: int, j: int) -> bool {
    &&& 0 <= i < node_count(plugins)
    &&& 0 <= j < node_count(plugins)
    &&& plugins.entry_seq()[i].1.dependencies@.dom().contains(plugins.key_seq()[j])
}

/// A circle of plugin numbers along dependencies.
pub open spec fn is_index_cycle(plugins: NameMap<PluginManifest>, c: Seq<int>) -> bool {
    &&& c.len() >= 2
    &&& c[0] == c[c.len() - 1]
    &&& forall|i: int| 0 <= i < c.len() - 1 ==> edge(plugins, #[trigger] c[i], c[i + 1])
}

/// The names of plugin numbers.
pub open spec fn names_of(plugins: NameMap<PluginManifest>, c: Seq<int>) -> Seq<Seq<char>> {
    c.map_values(|i: int| plugins.key_seq()[i])
}

/// The edges between plugin numbers are the dependencies between their names.
proof fn lemma_edge_depends(plugins: NameMap<PluginManifest>)
    requires
        plugins.key_seq().no_duplicates(),
    ensures
        forall|i: int, j: int|
            0 <= i < node_count(plugins) && 0 <= j < node_count(plugins) ==> (#[trigger] edge(
                plugins,
                i,
                j,
            ) <==> depends_on(plugins@, plugins.key_seq()[i], plugins.key_seq()[j])),
{
    plugins.lemma_view();
    assert forall|i: int, j: int|
        0 <= i < node_count(plugins) && 0 <= j < node_count(plugins) implies (#[trigger] edge(
        plugins,
        i,
        j,
    ) <==> depends_on(plugins@, plugins.key_seq()[i], plugins.key_seq()[j])) by {
        assert(plugins.key_seq()[i] == plugins.entry_seq()[i].0);
        assert(plugins.key_seq()[j] == plugins.entry_seq()[j].0);
        assert(plugins.key_seq().contains(plugins.key_seq()[i]));
        assert(plugins.key_seq().contains(plugins.key_seq()[j]));
    }
}

/// A circle of plugin numbers is a circle of their names.
proof fn lemma_index_cycle_names(plugins: NameMap<PluginManifest>, c: Seq<int>)
    requires
        plugins.key_seq().no_duplicates(),
        is_index_cycle(plugins, c),
    ensures
        is_dependency_cycle(plugins@, names_of(plugins, c)),
{
    lemma_edge_depends(plugins);
    let names = names_of(plugins, c);
    assert forall|i: int| 0 <= i < names.len() - 1 implies depends_on(
        plugins@,
        #[trigger] names[i],
        names[i + 1],
    ) by {
        assert(edge(plugins, c[i], c[i + 1]));
    }
}

/// A circle of names gives a circle of plugin numbers.
proof fn lemma_names_cycle_index(plugins: NameMap<PluginManifest>, c: Seq<Seq<char>>) -> (r: Seq<
    int,
>)
    requires
        plugins.key_seq().no_duplicates(),
        is_dependency_cycle(plugins@, c),
    ensures
        is_index_cycle(plugins, r),
{
    lemma_edge_depends(plugins);
    plugins.lemma_view();
    let ks = plugins.key_seq();
    assert forall|i: int| 0 <= i < c.len() implies ks.contains(#[trigger] c[i]) by {
        if i < c.len() - 1 {
            assert(depends_on(plugins@, c[i], c[i + 1]));
        } else {
            assert(depends_on(plugins@, c[0], c[1]));
        }
    }
    let r = Seq::new(c.len(), |i: int| choose|k: int| 0 <= k < ks.len() && ks[k] == c[i]);
    assert forall|i: int| 0 <= i < c.len() implies #[trigger] ks[r[i]] == c[i] && 0 <= r[i]
        < ks.len() by {
        assert(ks.contains(c[i]));
    }
    assert forall|i: int| 0 <= i < r.len() - 1 implies edge(plugins, #[trigger] r[i], r[i + 1]) by {
        assert(ks[r[i]] == c[i]);
        assert(ks[r[i + 1]] == c[i + 1]);
        assert(depends_on(plugins@, c[i], c[i + 1]));
    }
    assert(r[0] == r[r.len() - 1]) by {
        assert(ks[r[0]] == c[0]);
        assert(ks[r[r.len() - 1]] == c[c.len() - 1]);
    }
    r
}

// ---------------------------------------------------------------------------
// Sorting plugin numbers by name.
// ---------------------------------------------------------------------------

/// The plugin numbers of `v` between positions `lo` and `hi` (inclusive),
/// leaving out position `skip`, are in strictly increasing name order.
spec fn sorted_by_name_except(ks: Seq<Seq<char>>, v: Seq<usize>, hi: int, skip: int) -> bool {
    forall|a: int, b: int|
        0 <= a < b <= hi && a != skip && b != skip ==> text_less(
            ks[#[trigger] v[a] as int],
            ks[#[trigger] v[b] as int],
        )
}

/// Sorts plugin numbers by their names (insertion sort: a stable sort, as
/// `sort` is); the numbers themselves stay the same.
fn sort_by_name<V>(names: &NameMap<V>, v: &mut Vec<usize>)
    requires
        forall|k: int| 0 <= k < old(v)@.len() ==> old(v)@[k] < names.entry_seq().len(),
    ensures
        final(v)@.len() == old(v)@.len(),
        forall|x: usize| final(v)@.contains(x) <==> old(v)@.contains(x),
        old(v)@.no_duplicates() ==> final(v)@.no_duplicates(),
        forall|k: int| 0 <= k < final(v)@.len() ==> final(v)@[k] < names.entry_seq().len(),
        old(v)@.no_duplicates() ==> forall|a: int, b: int|
            0 <= a < b < final(v)@.len() ==> text_less(
                names.key_seq()[#[trigger] final(v)@[a] as int],
                names.key_seq()[#[trigger] final(v)@[b] as int],
            ),
{
    proof {
        use_type_invariant(names);
    }
    let ghost ks = names.key_seq();
    let n = v.len();
    let ghost orig = v@;
    let mut i: usize = 1;
    if n == 0 {
        return;
    }
    while i < n
        invariant
            n == v@.len(),
            orig.len() == n,
            1 <= i <= n,
            ks == names.key_seq(),
            ks.no_duplicates(),
            forall|k: int| 0 <= k < n ==> v@[k] < names.entry_seq().len(),
            forall|x: usize| v@.contains(x) <==> orig.contains(x),
            orig.no_duplicates() ==> v@.no_duplicates(),
            orig.no_duplicates() ==> sorted_by_name_except(ks, v@, i - 1, -1),
        decreases n - i,
    {
        let mut j: usize = i;
        let ghost x = v@[i as int];
        while j > 0 && less_text(names.key_at(v[j]).as_str(), names.key_at(v[j - 1]).as_str())
            invariant
                n == v@.len(),
                j <= i < n,
                ks == names.key_seq(),
                ks.no_duplicates(),
                v@[j as int] == x,
                forall|k: int| 0 <= k < n ==> v@[k] < names.entry_seq().len(),
                forall|x: usize| v@.contains(x) <==> orig.contains(x),
                orig.no_duplicates() ==> v@.no_duplicates(),
                orig.no_duplicates() ==> sorted_by_name_except(ks, v@, i as int, j as int),
                orig.no_duplicates() ==> forall|b: int|
                    j < b <= i ==> text_less(ks[x as int], ks[#[trigger] v@[b] as int]),
            decreases j,
        {
            let ghost before = v@;
            let a = v[j - 1];
            let b = v[j];
            v.set(j - 1, b);
            v.set(j, a);
            proof {
                assert(v@ =~= before.update(j - 1, b).update(j as int, a));
                assert forall|x: usize| v@.contains(x) <==> before.contains(x) by {
                    if v@.contains(x) {
                        let k = choose|k: int| 0 <= k < v@.len() && v@[k] == x;
                        if k == j - 1 {
                            assert(before[j as int] == x);
                        } else if k == j {
                            assert(before[j - 1] == x);
                        } else {
                            assert(before[k] == x);
                        }
                    }
                    if before.contains(x) {
                        let k = choose|k: int| 0 <= k < before.len() && before[k] == x;
                        if k == j - 1 {
                            assert(v@[j as int] == x);
                        } else if k == j {
                            assert(v@[j - 1] == x);
                        } else {
                            assert(v@[k] == x);
                        }
                    }
                }
                if orig.no_duplicates() {
                    assert forall|p: int, q: int|
                        0 <= p < v@.len() && 0 <= q < v@.len() && p != q implies v@[p] != v@[q] by {
                        let pp = if p == j - 1 {
                            j as int
                        } else if p == j {
                            j - 1
                        } else {
                            p
                        };
                        let qq = if q == j - 1 {
                            j as int
                        } else if q == j {
                            j - 1
                        } else {
                            q
                        };
                        assert(v@[p] == before[pp]);
                        assert(v@[q] == before[qq]);
                    }
                    assert(text_less(ks[b as int], ks[a as int]));
                    assert forall|p: int, q: int|
                        0 <= p < q <= i && p != j - 1 && q != j - 1 implies text_less(
                        ks[#[trigger] v@[p] as int],
                        ks[#[trigger] v@[q] as int],
                    ) by {
                        let pp = if p == j { j - 1 } else { p };
                        let qq = if q == j { j - 1 } else { q };
                        assert(v@[p] == before[pp]);
                        assert(v@[q] == before[qq]);
                    }
                    assert forall|q: int| j - 1 < q <= i implies text_less(
                        ks[x as int],
                        ks[#[trigger] v@[q] as int],
                    ) by {
                        if q == j {
                            assert(v@[q] == a);
                        } else {
                            assert(v@[q] == before[q]);
                        }
                    }
                }
            }
            j = j - 1;
        }
        proof {
            if orig.no_duplicates() {
                if j > 0 {
                    assert(v@[j - 1] != v@[j as int]);
                    assert(ks[v@[j - 1] as int] != ks[v@[j as int] as int]);
                    lemma_text_less_total(ks[v@[j - 1] as int], ks[x as int]);
                }
                assert forall|p: int, q: int| 0 <= p < q <= i implies text_less(
                    ks[#[trigger] v@[p] as int],
                    ks[#[trigger] v@[q] as int],
                ) by {
                    if q == j && p < j - 1 {
                        lemma_text_less_transitive(
                            ks[v@[p] as int],
                            ks[v@[j - 1] as int],
                            ks[x as int],
                        );
                    }
                }
            }
        }
        i = i + 1;
    }
}

/// Plugin numbers in strictly increasing order of their names.
pub open spec fn in_name_order(plugins: NameMap<PluginManifest>, s: Seq<usize>) -> bool {
    &&& forall|k: int| 0 <= k < s.len() ==> s[k] < node_count(plugins)
    &&& forall|a: int, b: int|
        0 <= a < b < s.len() ==> text_less(
            plugins.key_seq()[#[trigger] s[a] as int],
            plugins.key_seq()[#[trigger] s[b] as int],
        )
}

/// The installed dependencies of plugin number `i`, in name order.
pub open spec fn dependency_order(plugins: NameMap<PluginManifest>, i: int) -> Seq<usize> {
    choose|s: Seq<usize>|
        in_name_order(plugins, s) && forall|j: usize|
            j < node_count(plugins) ==> (#[trigger] s.contains(j) <==> edge(plugins, i, j as int))
}

/// All plugin numbers, in name order.
pub open spec fn name_order(plugins: NameMap<PluginManifest>) -> Seq<usize> {
    choose|s: Seq<usize>|
        in_name_order(plugins, s) && forall|j: usize| j < node_count(plugins) ==> #[trigger] s.contains(j)
}

/// Two lists in name order with the same plugin numbers are the same list.
proof fn lemma_name_order_unique(plugins: NameMap<PluginManifest>, s: Seq<usize>, t: Seq<usize>)
    requires
        in_name_order(plugins, s),
        in_name_order(plugins, t),
        forall|j: usize| j < node_count(plugins) ==> (#[trigger] s.contains(j) <==> t.contains(j)),
    ensures
        s == t,
    decreases s.len(),
{
    let ks = plugins.key_seq();
    if s.len() == 0 {
        if t.len() > 0 {
            assert(t.contains(t[0]));
            assert(s.contains(t[0]));
        }
        assert(s =~= t);
    } else {
        assert(s.contains(s[0]));
        assert(t.contains(s[0]));
        let p = choose|p: int| 0 <= p < t.len() && t[p] == s[0];
        assert(t.contains(t[0]));
        assert(s.contains(t[0]));
        let q = choose|q: int| 0 <= q < s.len() && s[q] == t[0];
        if p > 0 {
            assert(text_less(ks[t[0] as int], ks[t[p] as int]));
            if q > 0 {
                assert(text_less(ks[s[0] as int], ks[s[q] as int]));
                lemma_text_less_asymmetric(ks[s[0] as int], ks[t[0] as int]);
            } else {
                lemma_text_less_asymmetric(ks[t[0] as int], ks[t[0] as int]);
            }
        }
        assert(s[0] == t[0]);
        let s1 = s.drop_first();
        let t1 = t.drop_first();
        assert forall|j: usize| j < node_count(plugins) implies (#[trigger] s1.contains(j)
            <==> t1.contains(j)) by {
            if s1.contains(j) {
                let a = choose|a: int| 0 <= a < s1.len() && s1[a] == j;
                assert(s[a + 1] == j);
                assert(s.contains(j));
                let b = choose|b: int| 0 <= b < t.len() && t[b] == j;
                if b == 0 {
                    assert(text_less(ks[s[0] as int], ks[s[a + 1] as int]));
                    lemma_text_less_asymmetric(ks[j as int], ks[j as int]);
                }
                assert(t1[b - 1] == j);
            }
            if t1.contains(j) {
                let a = choose|a: int| 0 <= a < t1.len() && t1[a] == j;
                assert(t[a + 1] == j);
                assert(t.contains(j));
                assert(s.contains(j));
                let b = choose|b: int| 0 <= b < s.len() && s[b] == j;
                if b == 0 {
                    assert(text_less(ks[t[0] as int], ks[t[a + 1] as int]));
                    lemma_text_less_asymmetric(ks[j as int], ks[j as int]);
                }
                assert(s1[b - 1] == j);
            }
        }
        assert forall|a: int, b: int| 0 <= a < b < s1.len() implies text_less(
            ks[#[trigger] s1[a] as int],
            ks[#[trigger] s1[b] as int],
        ) by {
            assert(s1[a] == s[a + 1] && s1[b] == s[b + 1]);
        }
        assert forall|a: int, b: int| 0 <= a < b < t1.len() implies text_less(
            ks[#[trigger] t1[a] as int],
            ks[#[trigger] t1[b] as int],
        ) by {
            assert(t1[a] == t[a + 1] && t1[b] == t[b + 1]);
        }
        lemma_name_order_unique(plugins, s1, t1);
        assert(s =~= t1.insert(0, s[0]));
        assert(t =~= t1.insert(0, t[0]));
    }
}

/// A list in name order holding exactly the installed dependencies of `i`
/// is their name order.
proof fn lemma_is_dependency_order(plugins: NameMap<PluginManifest>, i: int, s: Seq<usize>)
    requires
        in_name_order(plugins, s),
        forall|j: usize|
            j < node_count(plugins) ==> (#[trigger] s.contains(j) <==> edge(plugins, i, j as int)),
    ensures
        s == dependency_order(plugins, i),
{
    let t = dependency_order(plugins, i);
    lemma_name_order_unique(plugins, s, t);
}

/// A list in name order holding every plugin number is the name order.
proof fn lemma_is_name_order(plugins: NameMap<PluginManifest>, s: Seq<usize>)
    requires
        in_name_order(plugins, s),
        forall|j: usize| j < node_count(plugins) ==> #[trigger] s.contains(j),
    ensures
        s == name_order(plugins),
{
    let t = name_order(plugins);
    lemma_name_order_unique(plugins, s, t);
}

// ---------------------------------------------------------------------------
// The graph as lists of plugin numbers.
// ---------------------------------------------------------------------------

/// `adj` lists, for every plugin number, exactly the plugins it depends on,
/// each once.
pub open spec fn adjacency_ok(plugins: NameMap<PluginManifest>, adj: Seq<Vec<usize>>) -> bool {
    &&& adj.len() == node_count(plugins)
    &&& node_count(plugins) <= usize::MAX
    &&& forall|i: int|
        0 <= i < adj.len() ==> {
            &&& (#[trigger] adj[i])@.no_duplicates()
            &&& adj[i]@ == dependency_order(plugins, i)
            &&& forall|k: int| 0 <= k < adj[i]@.len() ==> adj[i]@[k] < node_count(plugins)
            &&& forall|j: usize|
                #![trigger adj[i]@.contains(j)]
                #![trigger edge(plugins, i, j as int)]
                j < node_count(plugins) ==> (adj[i]@.contains(j) <==> edge(plugins, i, j as int))
        }
}

/// Some of the first `k` names of `ds` is name number `j` of `ks`.
spec fn named_before(ds: Seq<Seq<char>>, ks: Seq<Seq<char>>, k: int, j: int) -> bool {
    exists|x: int| 0 <= x < k && ds[x] == ks[j]
}

/// The installed dependencies of one plugin, as plugin numbers sorted by name.
fn dependency_list(plugins: &NameMap<PluginManifest>, i: usize) -> (l: Vec<usize>)
    requires
        i < node_count(*plugins),
    ensures
        l@.no_duplicates(),
        forall|k: int| 0 <= k < l@.len() ==> l@[k] < node_count(*plugins),
        forall|j: usize|
            j < node_count(*plugins) ==> (l@.contains(j) <==> edge(*plugins, i as int, j as int)),
        l@ == dependency_order(*plugins, i as int),
{
    proof {
        use_type_invariant(plugins);
    }
    let deps = &plugins.value_at(i).dependencies;
    proof {
        use_type_invariant(deps);
        deps.lemma_view();
    }
    let ghost n = node_count(*plugins);
    let ghost ks = plugins.key_seq();
    let ghost ds = deps.key_seq();
    let m = deps.len();
    let mut l: Vec<usize> = Vec::new();
    let mut k: usize = 0;
    while k < m
        invariant
            m == ds.len(),
            ds == deps.key_seq(),
            ds.no_duplicates(),
            ks == plugins.key_seq(),
            ks.no_duplicates(),
            n == ks.len(),
            k <= m,
            l@.no_duplicates(),
            forall|x: int| 0 <= x < l@.len() ==> l@[x] < n,
            forall|j: usize|
                #![trigger named_before(ds, ks, k as int, j as int)]
                #![trigger l@.contains(j)]
                j < n ==> (l@.contains(j) <==> named_before(ds, ks, k as int, j as int)),
        decreases m - k,
    {
        match plugins.position(deps.key_at(k).as_str()) {
            Some(j) => {
                proof {
                    assert(ds[k as int] == ks[j as int]);
                    if l@.contains(j) {
                        let x = choose|x: int| 0 <= x < k && ds[x] == ks[j as int];
                        assert(ds[x] == ds[k as int]);
                    }
                }
                let ghost before = l@;
                l.push(j);
                proof {
                    assert forall|jj: usize|
                        #![trigger named_before(ds, ks, k + 1, jj as int)]
                        #![trigger l@.contains(jj)]
                        jj < n implies (l@.contains(jj) <==> named_before(
                        ds,
                        ks,
                        k + 1,
                        jj as int,
                    )) by {
                        if l@.contains(jj) && jj != j {
                            let y = choose|y: int| 0 <= y < l@.len() && l@[y] == jj;
                            assert(before[y] == jj);
                            assert(before.contains(jj));
                        }
                        if jj == j {
                            assert(l@[l@.len() - 1] == j);
                        }
                        if named_before(ds, ks, k + 1, jj as int) {
                            let x = choose|x: int| 0 <= x < k + 1 && ds[x] == ks[jj as int];
                            if x == k {
                                assert(ks[jj as int] == ks[j as int]);
                                assert(jj == j);
                                assert(l@[l@.len() - 1] == j);
                            } else {
                                assert(before.contains(jj));
                                let y = choose|y: int| 0 <= y < before.len() && before[y] == jj;
                                assert(l@[y] == jj);
                            }
                        }
                    }
                }
            },
            None => {
                proof {
                    assert forall|jj: usize|
                        #![trigger named_before(ds, ks, k + 1, jj as int)]
                        #![trigger l@.contains(jj)]
                        jj < n implies (l@.contains(jj) <==> named_before(
                        ds,
                        ks,
                        k + 1,
                        jj as int,
                    )) by {
                        if named_before(ds, ks, k + 1, jj as int) {
                            let x = choose|x: int| 0 <= x < k + 1 && ds[x] == ks[jj as int];
                            if x == k {
                                assert(ks.contains(ks[jj as int]));
                            }
                        }
                    }
                }
            },
        }
        k = k + 1;
    }
    proof {
        assert forall|j: usize| j < n implies (l@.contains(j) <==> edge(
            *plugins,
            i as int,
            j as int,
        )) by {
            assert(deps@.dom().contains(ks[j as int]) <==> ds.contains(ks[j as int]));
        }
    }
    sort_by_name(plugins, &mut l);
    proof {
        lemma_is_dependency_order(*plugins, i as int, l@);
    }
    l
}

/// The installed dependencies of every plugin.
fn dependency_lists(plugins: &NameMap<PluginManifest>) -> (adj: Vec<Vec<usize>>)
    ensures
        adjacency_ok(*plugins, adj@),
{
    let n = plugins.len();
    let mut adj: Vec<Vec<usize>> = Vec::new();
    let mut i: usize = 0;
    while i < n
        invariant
            n == node_count(*plugins),
            i <= n,
            adj@.len() == i,
            forall|x: int|
                0 <= x < i ==> {
                    &&& (#[trigger] adj@[x])@.no_duplicates()
                    &&& adj@[x]@ == dependency_order(*plugins, x)
                    &&& forall|k: int| 0 <= k < adj@[x]@.len() ==> adj@[x]@[k] < n
                    &&& forall|j: usize|
                        j < n ==> (adj@[x]@.contains(j) <==> edge(*plugins, x, j as int))
                },
        decreases n - i,
    {
        let l = dependency_list(plugins, i);
        adj.push(l);
        i = i + 1;
    }
    adj
}

// ---------------------------------------------------------------------------
// Depth-first search for a circle of dependencies.
// ---------------------------------------------------------------------------

/// The number of plugins not yet visited.
pub open spec fn count_unvisited(v: Seq<bool>) -> nat
    decreases v.len(),
{
    if v.len() == 0 {
        0
    } else {
        count_unvisited(v.drop_last()) + if v.last() {
            0nat
        } else {
            1nat
        }
    }
}

/// Visiting more plugins leaves fewer unvisited, strictly fewer when some
/// plugin is newly visited.
pub proof fn lemma_count_unvisited(a: Seq<bool>, b: Seq<bool>, w: int)
    requires
        a.len() == b.len(),
        forall|i: int| 0 <= i < a.len() && #[trigger] a[i] ==> b[i],
    ensures
        count_unvisited(b) <= count_unvisited(a),
        0 <= w < a.len() && !a[w] && b[w] ==> count_unvisited(b) < count_unvisited(a),
    decreases a.len(),
{
    if a.len() > 0 {
        let n = a.len() - 1;
        assert forall|i: int| 0 <= i < n && #[trigger] a.drop_last()[i] implies b.drop_last()[i] by {
            assert(a[i]);
        }
        lemma_count_unvisited(a.drop_last(), b.drop_last(), w);
    }
}

/// The circle that closes when the search meets `d` again on `path`: the
/// path from `d` on, then `d` once more.
pub open spec fn closing_cycle(path: Seq<usize>, d: usize) -> Seq<usize> {
    let q = choose|q: int| 0 <= q < path.len() && path[q] == d;
    path.subrange(q, path.len() as int).push(d)
}

/// The depth-first search from plugin `u`, given the plugins visited so far
/// and the path that led to `u`: the circle it finds, if any, and the
/// plugins visited afterwards. A plugin already visited is not searched
/// again.
pub open spec fn search_plugin(
    plugins: NameMap<PluginManifest>,
    u: usize,
    visited: Seq<bool>,
    path: Seq<usize>,
) -> (Option<Seq<usize>>, Seq<bool>)
    decreases count_unvisited(visited), 0int, 0int,
{
    if u >= visited.len() || visited[u as int] {
        (None, visited)
    } else {
        proof {
            lemma_count_unvisited(visited, visited.update(u as int, true), u as int);
        }
        search_dependencies(plugins, u, 0, visited.update(u as int, true), path.push(u))
    }
}

/// The search goes on through the dependencies of `u` (on the path) in
/// name order, from the `k`-th on: an unvisited dependency is searched in
/// turn; one on the path closes a circle.
pub open spec fn search_dependencies(
    plugins: NameMap<PluginManifest>,
    u: usize,
    k: int,
    visited: Seq<bool>,
    path: Seq<usize>,
) -> (Option<Seq<usize>>, Seq<bool>)
    decreases count_unvisited(visited), 1int, dependency_order(plugins, u as int).len() - k,
{
    let deps = dependency_order(plugins, u as int);
    if k < 0 || k >= deps.len() {
        (None, visited)
    } else {
        let d = deps[k];
        if d < visited.len() && !visited[d as int] {
            let (found, after) = search_plugin(plugins, d, visited, path);
            if found is Some {
                (found, after)
            } else if count_unvisited(after) <= count_unvisited(visited) {
                search_dependencies(plugins, u, k + 1, after, path)
            } else {
                (None, after)
            }
        } else if path.contains(d) {
            (Some(closing_cycle(path, d)), visited)
        } else {
            search_dependencies(plugins, u, k + 1, visited, path)
        }
    }
}

/// The search from the plugins of `order`, from the `t`-th on, each with an
/// empty path: the first circle found, if any.
pub open spec fn search_roots(
    plugins: NameMap<PluginManifest>,
    order: Seq<usize>,
    t: int,
    visited: Seq<bool>,
) -> Option<Seq<usize>>
    decreases order.len() - t,
{
    if t < 0 || t >= order.len() {
        None
    } else {
        let (found, after) = search_plugin(plugins, order[t], visited, Seq::empty());
        if found is Some {
            found
        } else {
            search_roots(plugins, order, t + 1, after)
        }
    }
}

/// The circle of plugin numbers that the depth-first search finds, starting
/// from every plugin in name order with nothing visited, if any.
pub open spec fn cycle_search(plugins: NameMap<PluginManifest>) -> Option<Seq<usize>> {
    search_roots(plugins, name_order(plugins), 0, Seq::new(node_count(plugins) as nat, |i: int| false))
}

/// The circle of plugin names that cycle detection reports, if any.
pub open spec fn found_cycle(plugins: NameMap<PluginManifest>) -> Option<Seq<Seq<char>>> {
    match cycle_search(plugins) {
        Some(c) => Some(names_of(plugins, c.map_values(|x: usize| x as int))),
        None => None,
    }
}

/// A plugin whose search has finished: visited and no longer on the path.
spec fn finished(visited: Seq<bool>, on_path: Seq<bool>, u: int) -> bool {
    visited[u] && !on_path[u]
}

/// The state of the search: the path runs along dependencies and holds the
/// plugins marked on it; every finished plugin has a rank below `counter`,
/// and its dependencies are finished with lower ranks.
spec fn search_state(
    plugins: NameMap<PluginManifest>,
    visited: Seq<bool>,
    on_path: Seq<bool>,
    path: Seq<usize>,
    rank: Seq<int>,
    counter: int,
) -> bool {
    let n = node_count(plugins);
    &&& visited.len() == n
    &&& on_path.len() == n
    &&& rank.len() == n
    &&& forall|u: int| 0 <= u < n && #[trigger] on_path[u] ==> visited[u]
    &&& forall|u: usize| u < n ==> (#[trigger] on_path[u as int] <==> path.contains(u))
    &&& path.no_duplicates()
    &&& forall|k: int| 0 <= k < path.len() ==> #[trigger] path[k] < n
    &&& forall|k: int| 0 <= k < path.len() - 1 ==> edge(plugins, #[trigger] path[k] as int, path[k + 1] as int)
    &&& forall|u: int|
        0 <= u < n && #[trigger] finished(visited, on_path, u) ==> {
            &&& rank[u] < counter
            &&& forall|v: int|
                0 <= v < n && #[trigger] edge(plugins, u, v) ==> finished(visited, on_path, v)
                    && rank[v] < rank[u]
        }
}

/// Following dependencies from a finished plugin, ranks keep falling.
proof fn lemma_rank_falls(
    plugins: NameMap<PluginManifest>,
    visited: Seq<bool>,
    on_path: Seq<bool>,
    path: Seq<usize>,
    rank: Seq<int>,
    counter: int,
    c: Seq<int>,
    k: int,
)
    requires
        search_state(plugins, visited, on_path, path, rank, counter),
        forall|u: int| 0 <= u < node_count(plugins) ==> finished(visited, on_path, u),
        c.len() >= 2,
        forall|i: int| 0 <= i < c.len() - 1 ==> edge(plugins, #[trigger] c[i], c[i + 1]),
        1 <= k < c.len(),
    ensures
        rank[c[k]] < rank[c[0]],
    decreases k,
{
    assert(edge(plugins, c[k - 1], c[k]));
    assert(finished(visited, on_path, c[k - 1]));
    if k > 1 {
        lemma_rank_falls(plugins, visited, on_path, path, rank, counter, c, k - 1);
    }
}

/// When every plugin is finished there is no circle.
proof fn lemma_all_finished_acyclic(
    plugins: NameMap<PluginManifest>,
    visited: Seq<bool>,
    on_path: Seq<bool>,
    path: Seq<usize>,
    rank: Seq<int>,
    counter: int,
)
    requires
        plugins.key_seq().no_duplicates(),
        search_state(plugins, visited, on_path, path, rank, counter),
        forall|u: int| 0 <= u < node_count(plugins) ==> finished(visited, on_path, u),
    ensures
        !has_dependency_cycle(plugins@),
{
    if has_dependency_cycle(plugins@) {
        let c = choose|c: Seq<Seq<char>>| is_dependency_cycle(plugins@, c);
        let ic = lemma_names_cycle_index(plugins, c);
        lemma_rank_falls(plugins, visited, on_path, path, rank, counter, ic, ic.len() - 1);
    }
}

/// The circle that closes when the search meets `d` again on the path: the
/// path from `d` on, then `d` once more.
fn cycle_through(plugins: &NameMap<PluginManifest>, path: &Vec<usize>, d: usize) -> (c: Vec<usize>)
    requires
        path@.contains(d),
        forall|k: int|
            0 <= k < path@.len() - 1 ==> edge(*plugins, #[trigger] path@[k] as int, path@[k + 1] as int),
        edge(*plugins, path@.last() as int, d as int),
        path@.no_duplicates(),
    ensures
        is_index_cycle(*plugins, c@.map_values(|x: usize| x as int)),
        c@.drop_last().no_duplicates(),
        c@ == closing_cycle(path@, d),
{
    let plen = path.len();
    let mut q: usize = 0;
    while path[q] != d
        invariant
            plen == path@.len(),
            q < plen,
            path@.contains(d),
            forall|t: int| 0 <= t < q ==> path@[t] != d,
        decreases plen - q,
    {
        proof {
            let t = choose|t: int| 0 <= t < path@.len() && path@[t] == d;
            assert(t > q);
        }
        q = q + 1;
    }
    let mut c: Vec<usize> = Vec::new();
    let mut t: usize = q;
    while t < plen
        invariant
            plen == path@.len(),
            q < plen,
            path@[q as int] == d,
            q <= t <= plen,
            c@ == path@.subrange(q as int, t as int),
        decreases plen - t,
    {
        c.push(path[t]);
        proof {
            assert(c@ =~= path@.subrange(q as int, t + 1));
        }
        t = t + 1;
    }
    c.push(d);
    proof {
        assert(c@.drop_last() =~= path@.subrange(q as int, plen as int));
        let q0 = choose|q0: int| 0 <= q0 < path@.len() && path@[q0] == d;
        assert(q0 == q);
        assert(c@ =~= closing_cycle(path@, d));
        let cs = c@.map_values(|x: usize| x as int);
        assert forall|i: int| 0 <= i < cs.len() - 1 implies edge(*plugins, #[trigger] cs[i], cs[i + 1]) by {
            if i < cs.len() - 2 {
                assert(edge(*plugins, path@[q + i] as int, path@[q + i + 1] as int));
            }
        }
    }
    c
}

/// The plugin numbers of a circle that was found, if any.
spec fn numbers_view(r: Option<Vec<usize>>) -> Option<Seq<usize>> {
    match r {
        Some(c) => Some(c@),
        None => None,
    }
}

/// Searches from an unvisited plugin. A circle found on the way is returned;
/// otherwise the plugin and everything reachable from it end finished.
fn search_from(
    plugins: &NameMap<PluginManifest>,
    adj: &Vec<Vec<usize>>,
    node: usize,
    visited: &mut Vec<bool>,
    on_path: &mut Vec<bool>,
    path: &mut Vec<usize>,
    rank: &mut Ghost<Seq<int>>,
    counter: &mut Ghost<int>,
) -> (r: Option<Vec<usize>>)
    requires
        adjacency_ok(*plugins, adj@),
        search_state(*plugins, old(visited)@, old(on_path)@, old(path)@, old(rank)@, old(counter)@),
        node < node_count(*plugins),
        !old(visited)@[node as int],
        old(path)@.len() > 0 ==> edge(*plugins, old(path)@.last() as int, node as int),
    ensures
        search_plugin(*plugins, node, old(visited)@, old(path)@).0 == numbers_view(r),
        r is None ==> search_plugin(*plugins, node, old(visited)@, old(path)@).1 == final(visited)@,
        match r {
            Some(c) => is_index_cycle(*plugins, c@.map_values(|x: usize| x as int))
                && c@.drop_last().no_duplicates(),
            None => {
                &&& search_state(
                    *plugins,
                    final(visited)@,
                    final(on_path)@,
                    final(path)@,
                    final(rank)@,
                    final(counter)@,
                )
                &&& final(path)@ == old(path)@
                &&& final(on_path)@ == old(on_path)@
                &&& final(visited)@[node as int]
                &&& forall|u: int|
                    0 <= u < node_count(*plugins) && #[trigger] old(visited)@[u]
                        ==> final(visited)@[u]
            },
        },
    decreases count_unvisited(old(visited)@),
{
    let ghost n = node_count(*plugins);
    let ghost entry_visited = visited@;
    let ghost entry_on_path = on_path@;
    let ghost entry_path = path@;
    visited.set(node, true);
    on_path.set(node, true);
    path.push(node);
    proof {
        assert(visited@ == entry_visited.update(node as int, true));
        assert(search_plugin(*plugins, node, entry_visited, entry_path) == search_dependencies(
            *plugins,
            node,
            0,
            visited@,
            path@,
        ));
        lemma_count_unvisited(entry_visited, visited@, node as int);
        assert forall|u: usize| u < n implies (#[trigger] on_path@[u as int] <==> path@.contains(u)) by {
            if u == node {
                assert(path@[path@.len() - 1] == node);
            } else {
                if path@.contains(u) {
                    let k = choose|k: int| 0 <= k < path@.len() && path@[k] == u;
                    assert(entry_path[k] == u);
                }
                if entry_path.contains(u) {
                    let k = choose|k: int| 0 <= k < entry_path.len() && entry_path[k] == u;
                    assert(path@[k] == u);
                }
            }
        }
        assert(path@.no_duplicates()) by {
            assert(!entry_on_path[node as int]);
            assert(!entry_path.contains(node));
        }
        assert forall|k: int| 0 <= k < path@.len() - 1 implies edge(
            *plugins,
            #[trigger] path@[k] as int,
            path@[k + 1] as int,
        ) by {
            if k < path@.len() - 2 {
                assert(path@[k] == entry_path[k]);
                assert(path@[k + 1] == entry_path[k + 1]);
            }
        }
        assert forall|u: int|
            0 <= u < n && #[trigger] finished(visited@, on_path@, u) implies finished(
            entry_visited,
            entry_on_path,
            u,
        ) by {}
    }
    let deps = &adj[node];
    let m = deps.len();
    let mut k: usize = 0;
    while k < m
        invariant
            adjacency_ok(*plugins, adj@),
            n == node_count(*plugins),
            node < n,
            deps == adj@[node as int],
            m == deps@.len(),
            k <= m,
            search_state(*plugins, visited@, on_path@, path@, rank@, counter@),
            path@ == entry_path.push(node),
            on_path@ == entry_on_path.update(node as int, true),
            visited@[node as int],
            entry_visited.len() == n,
            forall|u: int| 0 <= u < n && #[trigger] entry_visited[u] ==> visited@[u],
            count_unvisited(visited@) < count_unvisited(entry_visited),
            entry_visited == old(visited)@,
            entry_path == old(path)@,
            deps@ == dependency_order(*plugins, node as int),
            search_plugin(*plugins, node, entry_visited, entry_path) == search_dependencies(
                *plugins,
                node,
                k as int,
                visited@,
                path@,
            ),
            forall|x: int| 0 <= x < k ==> finished(visited@, on_path@, #[trigger] deps@[x] as int),
        decreases m - k,
    {
        let d = deps[k];
        proof {
            assert(deps@.contains(d));
            assert(edge(*plugins, node as int, d as int));
        }
        if !visited[d] {
            let ghost before_visited = visited@;
            let ghost before_on_path = on_path@;
            let ghost before_path = path@;
            match search_from(plugins, adj, d, visited, on_path, path, rank, counter) {
                Some(c) => {
                    return Some(c);
                },
                None => {},
            }
            proof {
                lemma_count_unvisited(before_visited, visited@, 0);
                assert(search_dependencies(*plugins, node, k as int, before_visited, before_path)
                    == search_dependencies(*plugins, node, k + 1, visited@, path@));
                assert forall|u: int| 0 <= u < n && #[trigger] entry_visited[u] implies visited@[u] by {
                    assert(before_visited[u]);
                }
                assert forall|x: int| 0 <= x < k + 1 implies finished(
                    visited@,
                    on_path@,
                    #[trigger] deps@[x] as int,
                ) by {
                    if x < k {
                        assert(finished(before_visited, before_on_path, deps@[x] as int));
                        assert(before_visited[deps@[x] as int]);
                    } else {
                        assert(!before_on_path[d as int]);
                    }
                }
            }
        } else if on_path[d] {
            proof {
                assert(path@.contains(d));
                assert(path@.last() == node);
            }
            let c = cycle_through(plugins, path, d);
            return Some(c);
        } else {
            proof {
                assert(!path@.contains(d));
            }
        }
        k = k + 1;
    }
    path.pop();
    on_path.set(node, false);
    let ghost c0 = counter@;
    proof {
        rank@ = rank@.update(node as int, c0);
        counter@ = c0 + 1;
    }
    proof {
        assert(path@ =~= entry_path);
        assert(on_path@ =~= entry_on_path);
        assert forall|x: usize| #![trigger deps@.contains(x)] deps@.contains(x) implies finished(
            visited@,
            on_path@,
            x as int,
        ) && rank@[x as int] < c0 by {
            let y = choose|y: int| 0 <= y < deps@.len() && deps@[y] == x;
            assert(finished(visited@, entry_on_path.update(node as int, true), deps@[y] as int));
        }
        assert forall|u: int|
            0 <= u < n && #[trigger] finished(visited@, on_path@, u) implies {
            &&& rank@[u] < counter@
            &&& forall|v: int|
                0 <= v < n && #[trigger] edge(*plugins, u, v) ==> finished(visited@, on_path@, v)
                    && rank@[v] < rank@[u]
        } by {
            if u == node {
                assert forall|v: int|
                    0 <= v < n && #[trigger] edge(*plugins, u, v) implies finished(
                    visited@,
                    on_path@,
                    v,
                ) && rank@[v] < rank@[u] by {
                    assert(adj@[node as int]@.contains(v as usize));
                    assert(deps@.contains(v as usize));
                }
            } else {
                assert(finished(visited@, entry_on_path.update(node as int, true), u));
                assert forall|v: int|
                    0 <= v < n && #[trigger] edge(*plugins, u, v) implies finished(
                    visited@,
                    on_path@,
                    v,
                ) && rank@[v] < rank@[u] by {
                    assert(finished(visited@, entry_on_path.update(node as int, true), v));
                }
            }
        }
    }
    None
}

/// The names of plugin numbers, each as its own text.
fn index_names(plugins: &NameMap<PluginManifest>, c: &Vec<usize>) -> (r: Vec<String>)
    requires
        forall|k: int| 0 <= k < c@.len() ==> c@[k] < node_count(*plugins),
    ensures
        r@.map_values(|t: String| t@) == names_of(*plugins, c@.map_values(|x: usize| x as int)),
{
    let mut r: Vec<String> = Vec::new();
    let mut i: usize = 0;
    while i < c.len()
        invariant
            i <= c@.len(),
            forall|k: int| 0 <= k < c@.len() ==> c@[k] < node_count(*plugins),
            r@.len() == i,
            forall|k: int| 0 <= k < i ==> (#[trigger] r@[k])@ == plugins.key_seq()[c@[k] as int],
        decreases c@.len() - i,
    {
        let name = plugins.key_at(c[i]).clone();
        r.push(name);
        i = i + 1;
    }
    assert(r@.map_values(|t: String| t@) =~= names_of(*plugins, c@.map_values(|x: usize| x as int)));
    r
}

/// The plugin numbers `0..n`, sorted by name.
fn numbers_by_name(plugins: &NameMap<PluginManifest>) -> (v: Vec<usize>)
    ensures
        v@.len() == node_count(*plugins),
        v@.no_duplicates(),
        forall|k: int| 0 <= k < v@.len() ==> v@[k] < node_count(*plugins),
        forall|u: usize| u < node_count(*plugins) ==> v@.contains(u),
        v@ == name_order(*plugins),
{
    let n = plugins.len();
    let mut v: Vec<usize> = Vec::new();
    let mut i: usize = 0;
    while i < n
        invariant
            n == node_count(*plugins),
            i <= n,
            v@.len() == i,
            forall|k: int| 0 <= k < i ==> v@[k] == k,
        decreases n - i,
    {
        v.push(i);
        i = i + 1;
    }
    proof {
        assert forall|u: usize| u < n implies v@.contains(u) by {
            assert(v@[u as int] == u);
        }
    }
    sort_by_name(plugins, &mut v);
    proof {
        lemma_is_name_order(*plugins, v@);
    }
    v
}

/// Looks for a circle of dependencies by depth-first search from every plugin
/// in name order, following dependencies in name order.
fn find_index_cycle(plugins: &NameMap<PluginManifest>, adj: &Vec<Vec<usize>>) -> (r: Option<
    Vec<usize>,
>)
    requires
        adjacency_ok(*plugins, adj@),
    ensures
        match r {
            Some(c) => is_index_cycle(*plugins, c@.map_values(|x: usize| x as int))
                && c@.drop_last().no_duplicates(),
            None => !has_dependency_cycle(plugins@),
        },
        numbers_view(r) == cycle_search(*plugins),
{
    proof {
        use_type_invariant(plugins);
    }
    let n = plugins.len();
    let names = numbers_by_name(plugins);
    let mut visited: Vec<bool> = Vec::new();
    let mut on_path: Vec<bool> = Vec::new();
    let mut i: usize = 0;
    while i < n
        invariant
            n == node_count(*plugins),
            i <= n,
            visited@.len() == i,
            on_path@.len() == i,
            forall|k: int| 0 <= k < i ==> !visited@[k] && !on_path@[k],
        decreases n - i,
    {
        visited.push(false);
        on_path.push(false);
        i = i + 1;
    }
    proof {
        assert(visited@ =~= Seq::new(n as nat, |x: int| false));
    }
    let mut path: Vec<usize> = Vec::new();
    let mut rank: Ghost<Seq<int>> = Ghost(Seq::new(n as nat, |x: int| 0));
    let mut counter: Ghost<int> = Ghost(0);
    let mut t: usize = 0;
    while t < n
        invariant
            adjacency_ok(*plugins, adj@),
            plugins.key_seq().no_duplicates(),
            n == node_count(*plugins),
            names@.len() == n,
            forall|k: int| 0 <= k < n ==> names@[k] < n,
            forall|u: usize| u < n ==> names@.contains(u),
            t <= n,
            search_state(*plugins, visited@, on_path@, path@, rank@, counter@),
            path@.len() == 0,
            forall|u: int| 0 <= u < n ==> !on_path@[u],
            forall|x: int| 0 <= x < t ==> visited@[#[trigger] names@[x] as int],
            names@ == name_order(*plugins),
            cycle_search(*plugins) == search_roots(*plugins, names@, t as int, visited@),
        decreases n - t,
    {
        let u = names[t];
        proof {
            assert(path@ =~= Seq::<usize>::empty());
        }
        if !visited[u] {
            let ghost before = visited@;
            match search_from(plugins, adj, u, &mut visited, &mut on_path, &mut path, &mut rank, &mut counter) {
                Some(c) => {
                    return Some(c);
                },
                None => {},
            }
            proof {
                assert forall|x: int| 0 <= x < t + 1 implies visited@[#[trigger] names@[x] as int] by {
                    if x < t {
                        assert(before[names@[x] as int]);
                    }
                }
            }
        }
        t = t + 1;
    }
    proof {
        assert forall|u: int| 0 <= u < n implies finished(visited@, on_path@, u) by {
            assert(names@.contains(u as usize));
            let x = choose|x: int| 0 <= x < names@.len() && names@[x] == u as usize;
            assert(visited@[names@[x] as int]);
        }
        lemma_all_finished_acyclic(*plugins, visited@, on_path@, path@, rank@, counter@);
    }
    None
}

// ---------------------------------------------------------------------------
// Facts for the load order (Kahn's algorithm).
// ---------------------------------------------------------------------------

/// How many of the plugins in `l` are not yet in `out`.
spec fn pending(l: Seq<usize>, out: Seq<usize>) -> nat
    decreases l.len(),
{
    if l.len() == 0 {
        0
    } else {
        pending(l.drop_last(), out) + if out.contains(l.last()) {
            0nat
        } else {
            1nat
        }
    }
}

/// No plugin of `l` is pending exactly when all of them are in `out`.
proof fn lemma_pending_zero(l: Seq<usize>, out: Seq<usize>)
    ensures
        pending(l, out) == 0 <==> forall|k: int| 0 <= k < l.len() ==> out.contains(#[trigger] l[k]),
    decreases l.len(),
{
    if l.len() > 0 {
        lemma_pending_zero(l.drop_last(), out);
        if pending(l, out) == 0 {
            assert forall|k: int| 0 <= k < l.len() implies out.contains(#[trigger] l[k]) by {
                if k < l.len() - 1 {
                    assert(l.drop_last()[k] == l[k]);
                }
            }
        }
        if forall|k: int| 0 <= k < l.len() ==> out.contains(#[trigger] l[k]) {
            assert forall|k: int| 0 <= k < l.drop_last().len() implies out.contains(
                #[trigger] l.drop_last()[k],
            ) by {
                assert(l.drop_last()[k] == l[k]);
            }
            assert(out.contains(l[l.len() - 1]));
        }
    }
}

/// Putting `x` into `out` makes one plugin fewer pending when `l` holds it.
proof fn lemma_pending_push(l: Seq<usize>, out: Seq<usize>, x: usize)
    requires
        l.no_duplicates(),
        !out.contains(x),
    ensures
        pending(l, out.push(x)) + (if l.contains(x) {
            1int
        } else {
            0int
        }) == pending(l, out),
    decreases l.len(),
{
    if l.len() > 0 {
        let t = l.drop_last();
        assert(t.no_duplicates()) by {
            assert forall|i: int, j: int| 0 <= i < t.len() && 0 <= j < t.len() && i != j implies t[i]
                != t[j] by {
                assert(t[i] == l[i] && t[j] == l[j]);
            }
        }
        lemma_pending_push(t, out, x);
        assert forall|y: usize| out.push(x).contains(y) <==> (out.contains(y) || y == x) by {
            if out.push(x).contains(y) {
                let k = choose|k: int| 0 <= k < out.push(x).len() && out.push(x)[k] == y;
                if k < out.len() {
                    assert(out[k] == y);
                }
            }
            if out.contains(y) {
                let k = choose|k: int| 0 <= k < out.len() && out[k] == y;
                assert(out.push(x)[k] == y);
            }
            if y == x {
                assert(out.push(x)[out.len() as int] == y);
            }
        }
        if l.last() == x {
            assert(!t.contains(x)) by {
                if t.contains(x) {
                    let k = choose|k: int| 0 <= k < t.len() && t[k] == x;
                    assert(l[k] == l[l.len() - 1]);
                }
            }
            assert(l.contains(x)) by {
                assert(l[l.len() - 1] == x);
            }
        } else {
            assert(l.contains(x) <==> t.contains(x)) by {
                if l.contains(x) {
                    let k = choose|k: int| 0 <= k < l.len() && l[k] == x;
                    assert(t[k] == x);
                }
                if t.contains(x) {
                    let k = choose|k: int| 0 <= k < t.len() && t[k] == x;
                    assert(l[k] == x);
                }
            }
        }
    }
}

/// Pending counts only fall as `out` grows.
proof fn lemma_pending_monotone(l: Seq<usize>, out: Seq<usize>, more: Seq<usize>)
    requires
        forall|y: usize| out.contains(y) ==> more.contains(y),
    ensures
        pending(l, more) <= pending(l, out),
    decreases l.len(),
{
    if l.len() > 0 {
        lemma_pending_monotone(l.drop_last(), out, more);
    }
}

/// A plugin of `l` that is not in `out` is pending.
proof fn lemma_pending_member(l: Seq<usize>, out: Seq<usize>, x: usize)
    requires
        l.contains(x),
        !out.contains(x),
    ensures
        pending(l, out) >= 1,
{
    lemma_pending_zero(l, out);
    let k = choose|k: int| 0 <= k < l.len() && l[k] == x;
    assert(!out.contains(l[k]));
}

/// Distinct numbers below `n` are at most `n` many.
proof fn lemma_distinct_bounded(s: Seq<usize>, n: int)
    requires
        n >= 0,
        s.no_duplicates(),
        forall|k: int| 0 <= k < s.len() ==> s[k] < n,
    ensures
        s.len() <= n,
{
    let t = s.map_values(|x: usize| x as int);
    assert(t.no_duplicates()) by {
        assert forall|i: int, j: int| 0 <= i < t.len() && 0 <= j < t.len() && i != j implies t[i]
            != t[j] by {
            assert(s[i] != s[j]);
        }
    }
    t.unique_seq_to_set();
    vstd::set_lib::lemma_int_range(0, n);
    assert(t.to_set().subset_of(vstd::set_lib::set_int_range(0, n))) by {
        assert forall|x: int| t.to_set().contains(x) implies vstd::set_lib::set_int_range(
            0,
            n,
        ).contains(x) by {
            let k = choose|k: int| 0 <= k < t.len() && t[k] == x;
            assert(s[k] < n);
        }
    }
    vstd::set_lib::lemma_len_subset(t.to_set(), vstd::set_lib::set_int_range(0, n));
}

/// Plugin `u` depends on some plugin outside `done`.
spec fn has_step_outside(plugins: NameMap<PluginManifest>, done: Seq<usize>, u: int) -> bool {
    exists|v: int| 0 <= v < node_count(plugins) && #[trigger] edge(plugins, u, v) && !done.contains(v as usize)
}

/// Some dependency of `u` that lies outside `done`.
spec fn step_outside(plugins: NameMap<PluginManifest>, done: Seq<usize>, u: int) -> int {
    choose|v: int| 0 <= v < node_count(plugins) && edge(plugins, u, v) && !done.contains(v as usize)
}

/// The plugin reached from `u` after `k` such steps.
spec fn walk_outside(plugins: NameMap<PluginManifest>, done: Seq<usize>, u: int, k: nat) -> int
    decreases k,
{
    if k == 0 {
        u
    } else {
        step_outside(plugins, done, walk_outside(plugins, done, u, (k - 1) as nat))
    }
}

/// When every plugin outside `done` depends on another plugin outside
/// `done`, and some plugin lies outside it, the plugins depend on each other
/// in a circle.
proof fn lemma_closed_outside_has_cycle(plugins: NameMap<PluginManifest>, done: Seq<usize>, u: int)
    requires
        plugins.key_seq().no_duplicates(),
        node_count(plugins) <= usize::MAX,
        0 <= u < node_count(plugins),
        !done.contains(u as usize),
        forall|x: int|
            0 <= x < node_count(plugins) && !done.contains(x as usize) ==> #[trigger] has_step_outside(
                plugins,
                done,
                x,
            ),
    ensures
        has_dependency_cycle(plugins@),
{
    let n = node_count(plugins);
    assert forall|k: nat| #![trigger walk_outside(plugins, done, u, k)]
        0 <= walk_outside(plugins, done, u, k) < n && !done.contains(
            walk_outside(plugins, done, u, k) as usize,
        ) by {
        lemma_walk_outside(plugins, done, u, k);
    }
    let w = Seq::new((n + 1) as nat, |k: int| walk_outside(plugins, done, u, k as nat));
    if w.no_duplicates() {
        let ws = Seq::new((n + 1) as nat, |k: int| walk_outside(plugins, done, u, k as nat) as usize);
        assert(ws.no_duplicates()) by {
            assert forall|i: int, j: int| 0 <= i < ws.len() && 0 <= j < ws.len() && i != j implies ws[i]
                != ws[j] by {
                assert(w[i] != w[j]);
                assert(0 <= w[i] < n);
                assert(0 <= w[j] < n);
            }
        }
        assert forall|k: int| 0 <= k < ws.len() implies ws[k] < n by {
            assert(0 <= w[k] < n);
        }
        lemma_distinct_bounded(ws, n);
    } else {
        let (i, j) = choose|i: int, j: int| 0 <= i < w.len() && 0 <= j < w.len() && i != j && w[i] == w[j];
        let lo = if i < j {
            i
        } else {
            j
        };
        let hi = if i < j {
            j
        } else {
            i
        };
        let c = w.subrange(lo, hi + 1);
        assert forall|x: int| 0 <= x < c.len() - 1 implies edge(plugins, #[trigger] c[x], c[x + 1]) by {
            let a = walk_outside(plugins, done, u, (lo + x) as nat);
            lemma_walk_outside(plugins, done, u, (lo + x) as nat);
            assert(has_step_outside(plugins, done, a));
            assert(c[x + 1] == walk_outside(plugins, done, u, (lo + x + 1) as nat));
        }
        assert(is_index_cycle(plugins, c));
        lemma_index_cycle_names(plugins, c);
    }
}

proof fn lemma_walk_outside(plugins: NameMap<PluginManifest>, done: Seq<usize>, u: int, k: nat)
    requires
        0 <= u < node_count(plugins),
        !done.contains(u as usize),
        forall|x: int|
            0 <= x < node_count(plugins) && !done.contains(x as usize) ==> #[trigger] has_step_outside(
                plugins,
                done,
                x,
            ),
    ensures
        0 <= walk_outside(plugins, done, u, k) < node_count(plugins),
        !done.contains(walk_outside(plugins, done, u, k) as usize),
    decreases k,
{
    if k > 0 {
        lemma_walk_outside(plugins, done, u, (k - 1) as nat);
        assert(has_step_outside(plugins, done, walk_outside(plugins, done, u, (k - 1) as nat)));
    }
}

/// One more element of a prefix.
proof fn lemma_take_one_more(s: Seq<usize>, k: int)
    requires
        0 <= k < s.len(),
    ensures
        forall|x: usize| #[trigger] s.take(k + 1).contains(x) <==> (s.take(k).contains(x) || x == s[k]),
{
    let a = s.take(k + 1);
    let b = s.take(k);
    assert(a =~= b.push(s[k]));
    assert forall|x: usize| #[trigger] a.contains(x) <==> (b.contains(x) || x == s[k]) by {
        if a.contains(x) {
            let t = choose|t: int| 0 <= t < a.len() && a[t] == x;
            if t < k {
                assert(b[t] == x);
            }
        }
        if b.contains(x) {
            let t = choose|t: int| 0 <= t < b.len() && b[t] == x;
            assert(a[t] == x);
        }
        if x == s[k] {
            assert(a[k] == x);
        }
    }
}

/// `rev` lists, for every plugin number, exactly the plugins that depend on it,
/// each once.
spec fn dependents_ok(plugins: NameMap<PluginManifest>, rev: Seq<Vec<usize>>) -> bool {
    &&& rev.len() == node_count(plugins)
    &&& forall|j: int|
        0 <= j < rev.len() ==> {
            &&& (#[trigger] rev[j])@.no_duplicates()
            &&& forall|k: int| 0 <= k < rev[j]@.len() ==> rev[j]@[k] < node_count(plugins)
            &&& forall|i: usize|
                #![trigger rev[j]@.contains(i)]
                #![trigger edge(plugins, i as int, j)]
                i < node_count(plugins) ==> (rev[j]@.contains(i) <==> edge(plugins, i as int, j))
        }
}

/// For every plugin, the plugins that depend on it, in plugin-number order.
fn dependents_lists(plugins: &NameMap<PluginManifest>, adj: &Vec<Vec<usize>>) -> (rev: Vec<Vec<usize>>)
    requires
        adjacency_ok(*plugins, adj@),
    ensures
        dependents_ok(*plugins, rev@),
{
    let n = plugins.len();
    let mut rev: Vec<Vec<usize>> = Vec::new();
    let mut j: usize = 0;
    while j < n
        invariant
            n == node_count(*plugins),
            j <= n,
            rev@.len() == j,
            forall|x: int| 0 <= x < j ==> (#[trigger] rev@[x])@.len() == 0,
        decreases n - j,
    {
        rev.push(Vec::new());
        j = j + 1;
    }
    let mut i: usize = 0;
    while i < n
        invariant
            adjacency_ok(*plugins, adj@),
            n == node_count(*plugins),
            i <= n,
            rev@.len() == n,
            forall|y: int|
                0 <= y < n ==> {
                    &&& (#[trigger] rev@[y])@.no_duplicates()
                    &&& forall|k: int| 0 <= k < rev@[y]@.len() ==> rev@[y]@[k] < i
                    &&& forall|x: usize|
                        #![trigger rev@[y]@.contains(x)]
                        x < n ==> (rev@[y]@.contains(x) <==> (x < i && edge(*plugins, x as int, y)))
                },
        decreases n - i,
    {
        let l = &adj[i];
        let m = l.len();
        let mut k: usize = 0;
        while k < m
            invariant
                adjacency_ok(*plugins, adj@),
                n == node_count(*plugins),
                i < n,
                l == adj@[i as int],
                m == l@.len(),
                k <= m,
                rev@.len() == n,
                forall|y: int|
                    0 <= y < n ==> {
                        &&& (#[trigger] rev@[y])@.no_duplicates()
                        &&& forall|t: int| 0 <= t < rev@[y]@.len() ==> rev@[y]@[t] <= i
                        &&& forall|x: usize|
                            #![trigger rev@[y]@.contains(x)]
                            x < n ==> (rev@[y]@.contains(x) <==> ((x < i && edge(
                                *plugins,
                                x as int,
                                y,
                            )) || (x == i && l@.take(k as int).contains(y as usize))))
                    },
            decreases m - k,
        {
            let y = l[k];
            let ghost before = rev@;
            proof {
                assert(!l@.take(k as int).contains(y)) by {
                    if l@.take(k as int).contains(y) {
                        let t = choose|t: int| 0 <= t < k && l@.take(k as int)[t] == y;
                        assert(l@[t] == l@[k as int]);
                    }
                }
                assert(!before[y as int]@.contains(i));
            }
            rev[y].push(i);
            proof {
                assert forall|z: int| 0 <= z < n implies {
                    &&& (#[trigger] rev@[z])@.no_duplicates()
                    &&& forall|t: int| 0 <= t < rev@[z]@.len() ==> rev@[z]@[t] <= i
                    &&& forall|x: usize|
                        #![trigger rev@[z]@.contains(x)]
                        x < n ==> (rev@[z]@.contains(x) <==> ((x < i && edge(
                            *plugins,
                            x as int,
                            z,
                        )) || (x == i && l@.take(k + 1).contains(z as usize))))
                } by {
                    lemma_take_one_more(l@, k as int);
                    if z == y {
                        assert(rev@[z]@ == before[z]@.push(i));
                        assert forall|x: usize| #![trigger rev@[z]@.contains(x)] rev@[z]@.contains(x) <==> (before[z]@.contains(x) || x == i) by {
                            if rev@[z]@.contains(x) {
                                let t = choose|t: int| 0 <= t < rev@[z]@.len() && rev@[z]@[t] == x;
                                if t < before[z]@.len() {
                                    assert(before[z]@[t] == x);
                                }
                            }
                            if before[z]@.contains(x) {
                                let t = choose|t: int| 0 <= t < before[z]@.len() && before[z]@[t] == x;
                                assert(rev@[z]@[t] == x);
                            }
                            if x == i {
                                assert(rev@[z]@[rev@[z]@.len() - 1] == x);
                            }
                        }
                    } else {
                        assert(rev@[z] == before[z]);
                    }
                }
            }
            k = k + 1;
        }
        proof {
            assert(l@.take(m as int) =~= l@);
            assert forall|y: int| 0 <= y < n implies {
                &&& (#[trigger] rev@[y])@.no_duplicates()
                &&& forall|t: int| 0 <= t < rev@[y]@.len() ==> rev@[y]@[t] < i + 1
                &&& forall|x: usize|
                    #![trigger rev@[y]@.contains(x)]
                    x < n ==> (rev@[y]@.contains(x) <==> (x < i + 1 && edge(*plugins, x as int, y)))
            } by {
                assert forall|x: usize|
                    #![trigger rev@[y]@.contains(x)]
                    x < n implies (rev@[y]@.contains(x) <==> (x < i + 1 && edge(*plugins, x as int, y))) by {
                    if x == i {
                        assert(adj@[i as int]@.contains(y as usize) <==> edge(*plugins, i as int, y));
                    }
                }
            }
        }
        i = i + 1;
    }
    rev
}

/// Takes one pending dependency off each listed plugin; the plugins left with
/// none are returned, in list order.
fn release(list: &Vec<usize>, in_deg: &mut Vec<usize>) -> (next: Vec<usize>)
    requires
        list@.no_duplicates(),
        forall|k: int| 0 <= k < list@.len() ==> list@[k] < old(in_deg)@.len(),
        forall|k: int| 0 <= k < list@.len() ==> old(in_deg)@[#[trigger] list@[k] as int] >= 1,
    ensures
        final(in_deg)@.len() == old(in_deg)@.len(),
        forall|u: usize|
            u < old(in_deg)@.len() ==> #[trigger] final(in_deg)@[u as int] + (if list@.contains(u) {
                1int
            } else {
                0int
            }) == old(in_deg)@[u as int],
        next@.no_duplicates(),
        forall|u: usize|
            #![trigger next@.contains(u)]
            next@.contains(u) <==> (list@.contains(u) && final(in_deg)@[u as int] == 0),
{
    let ghost orig = in_deg@;
    let mut next: Vec<usize> = Vec::new();
    let m = list.len();
    let mut k: usize = 0;
    while k < m
        invariant
            m == list@.len(),
            k <= m,
            list@.no_duplicates(),
            forall|x: int| 0 <= x < list@.len() ==> list@[x] < orig.len(),
            forall|x: int| 0 <= x < list@.len() ==> orig[#[trigger] list@[x] as int] >= 1,
            in_deg@.len() == orig.len(),
            forall|u: usize|
                u < orig.len() ==> #[trigger] in_deg@[u as int] + (if list@.take(k as int).contains(u) {
                    1int
                } else {
                    0int
                }) == orig[u as int],
            next@.no_duplicates(),
            forall|u: usize|
                #![trigger next@.contains(u)]
                next@.contains(u) <==> (list@.take(k as int).contains(u) && in_deg@[u as int] == 0),
        decreases m - k,
    {
        let u = list[k];
        let ghost before = in_deg@;
        let ghost before_next = next@;
        proof {
            assert(!list@.take(k as int).contains(u)) by {
                if list@.take(k as int).contains(u) {
                    let t = choose|t: int| 0 <= t < k && list@.take(k as int)[t] == u;
                    assert(list@[t] == list@[k as int]);
                }
            }
            assert(orig[list@[k as int] as int] >= 1);
        }
        let d = in_deg[u] - 1;
        in_deg.set(u, d);
        if d == 0 {
            next.push(u);
        }
        proof {
            lemma_take_one_more(list@, k as int);
            assert forall|x: usize|
                #![trigger next@.contains(x)]
                next@.contains(x) <==> (list@.take(k + 1).contains(x) && in_deg@[x as int] == 0) by {
                if d == 0 {
                    if next@.contains(x) {
                        let t = choose|t: int| 0 <= t < next@.len() && next@[t] == x;
                        if t < before_next.len() {
                            assert(before_next[t] == x);
                        }
                    }
                    if before_next.contains(x) {
                        let t = choose|t: int| 0 <= t < before_next.len() && before_next[t] == x;
                        assert(next@[t] == x);
                    }
                    if x == u {
                        assert(next@[next@.len() - 1] == x);
                    }
                }
            }
            if d == 0 {
                assert(next@.no_duplicates()) by {
                    assert(!before_next.contains(u));
                }
            }
        }
        k = k + 1;
    }
    proof {
        assert(list@.take(m as int) =~= list@);
    }
    next
}

/// With nothing done yet, every listed plugin is pending.
proof fn lemma_pending_empty(l: Seq<usize>)
    ensures
        pending(l, Seq::empty()) == l.len(),
    decreases l.len(),
{
    if l.len() > 0 {
        lemma_pending_empty(l.drop_last());
    }
}

/// Distinct numbers below `n` that include every number below `n` are
/// exactly `n` many.
proof fn lemma_covering_len(s: Seq<usize>, n: int)
    requires
        0 <= n <= usize::MAX,
        s.no_duplicates(),
        forall|k: int| 0 <= k < s.len() ==> s[k] < n,
        forall|u: usize| u < n ==> s.contains(u),
    ensures
        s.len() == n,
{
    lemma_distinct_bounded(s, n);
    let t = s.map_values(|x: usize| x as int);
    t.lemma_cardinality_of_set();
    vstd::set_lib::lemma_int_range(0, n);
    assert(vstd::set_lib::set_int_range(0, n).subset_of(t.to_set())) by {
        assert forall|x: int| vstd::set_lib::set_int_range(0, n).contains(x) implies t.to_set().contains(
            x,
        ) by {
            assert(s.contains(x as usize));
            let k = choose|k: int| 0 <= k < s.len() && s[k] == x as usize;
            assert(t[k] == x);
        }
    }
    vstd::seq_lib::seq_to_set_is_finite(t);
    vstd::set_lib::lemma_len_subset(vstd::set_lib::set_int_range(0, n), t.to_set());
}

/// The position in `q` of the last of the first `t` plugin numbers that
/// plugin `x` depends on; -1 when it depends on none of them.
spec fn last_dependency_index(plugins: NameMap<PluginManifest>, q: Seq<usize>, x: int, t: int) -> int
    decreases t,
{
    if t <= 0 {
        -1
    } else if edge(plugins, x, q[t - 1] as int) {
        t - 1
    } else {
        last_dependency_index(plugins, q, x, t - 1)
    }
}

/// The last dependency is at `r` when `x` depends on the plugin there and on
/// none after it.
proof fn lemma_last_dependency_index(
    plugins: NameMap<PluginManifest>,
    q: Seq<usize>,
    x: int,
    t: int,
    r: int,
)
    requires
        -1 <= r < t <= q.len(),
        r >= 0 ==> edge(plugins, x, q[r] as int),
        forall|s: int| r < s < t ==> !edge(plugins, x, #[trigger] q[s] as int),
    ensures
        last_dependency_index(plugins, q, x, t) == r,
    decreases t,
{
    if t - 1 > r {
        assert(!edge(plugins, x, q[t - 1] as int));
        lemma_last_dependency_index(plugins, q, x, t - 1, r);
    }
}

/// The last dependency, read on plugin numbers, is the last dependency read
/// on their names.
proof fn lemma_last_dependency_names(plugins: NameMap<PluginManifest>, q: Seq<usize>, x: int, t: int)
    requires
        plugins.key_seq().no_duplicates(),
        0 <= x < node_count(plugins),
        forall|k: int| 0 <= k < q.len() ==> q[k] < node_count(plugins),
        0 <= t <= q.len(),
    ensures
        last_dependency_index(plugins, q, x, t) == last_dependency_before(
            plugins@,
            names_of(plugins, q.map_values(|u: usize| u as int)),
            plugins.key_seq()[x],
            t,
        ),
    decreases t,
{
    if t > 0 {
        lemma_edge_depends(plugins);
        let o = names_of(plugins, q.map_values(|u: usize| u as int));
        assert(o[t - 1] == plugins.key_seq()[q[t - 1] as int]);
        assert(edge(plugins, x, q[t - 1] as int) <==> depends_on(
            plugins@,
            plugins.key_seq()[x],
            plugins.key_seq()[q[t - 1] as int],
        ));
        lemma_last_dependency_names(plugins, q, x, t - 1);
    }
}

/// `keys[a]` is the position of the last dependency of `q[a]` (-1 for none),
/// and `q` is ordered by these positions and then by name.
spec fn ready_keys(plugins: NameMap<PluginManifest>, q: Seq<usize>, keys: Seq<int>) -> bool {
    let ks = plugins.key_seq();
    &&& keys.len() == q.len()
    &&& forall|a: int| 0 <= a < q.len() ==> -1 <= #[trigger] keys[a] < a
    &&& forall|a: int|
        0 <= a < q.len() && #[trigger] keys[a] >= 0 ==> edge(plugins, q[a] as int, q[keys[a]] as int)
    &&& forall|a: int, s: int|
        0 <= a < q.len() && keys[a] < s < q.len() ==> !edge(
            plugins,
            #[trigger] q[a] as int,
            #[trigger] q[s] as int,
        )
    &&& forall|a: int, b: int|
        0 <= a < b < q.len() ==> #[trigger] keys[a] < #[trigger] keys[b] || (keys[a] == keys[b]
            && text_less(ks[q[a] as int], ks[q[b] as int]))
}

/// Taking plugin `q[h]` and appending the plugins it releases, in name order,
/// keeps the queue ordered by last dependency and name: the released plugins
/// have their last dependency at `h`, after that of every plugin before them.
proof fn lemma_ready_keys_step(
    plugins: NameMap<PluginManifest>,
    q: Seq<usize>,
    keys: Seq<int>,
    h: int,
    next: Seq<usize>,
)
    requires
        ready_keys(plugins, q, keys),
        q.no_duplicates(),
        0 <= h < q.len(),
        forall|t: int, v: usize|
            0 <= t < q.len() && #[trigger] edge(plugins, q[t] as int, v as int) ==> q.take(
                if t < h {
                    t
                } else {
                    h
                },
            ).contains(v),
        next.no_duplicates(),
        forall|k: int| 0 <= k < next.len() ==> !q.contains(#[trigger] next[k]),
        forall|k: int| 0 <= k < next.len() ==> edge(plugins, #[trigger] next[k] as int, q[h] as int),
        forall|k: int, v: usize|
            0 <= k < next.len() && #[trigger] edge(plugins, next[k] as int, v as int) ==> q.take(
                h + 1,
            ).contains(v),
        forall|a: int, b: int|
            0 <= a < b < next.len() ==> text_less(
                plugins.key_seq()[#[trigger] next[a] as int],
                plugins.key_seq()[#[trigger] next[b] as int],
            ),
    ensures
        ready_keys(plugins, q + next, keys + Seq::new(next.len(), |_i: int| h)),
{
    let q2 = q + next;
    let k2 = keys + Seq::new(next.len(), |_i: int| h);
    let ks = plugins.key_seq();
    let m = q.len();
    assert forall|a: int| 0 <= a < q2.len() implies -1 <= #[trigger] k2[a] < a by {
        if a < m {
            assert(k2[a] == keys[a]);
        }
    }
    assert forall|a: int| 0 <= a < q2.len() && #[trigger] k2[a] >= 0 implies edge(
        plugins,
        q2[a] as int,
        q2[k2[a]] as int,
    ) by {
        if a < m {
            assert(k2[a] == keys[a]);
            assert(q2[a] == q[a]);
            assert(q2[keys[a]] == q[keys[a]]);
        } else {
            assert(q2[a] == next[a - m]);
            assert(q2[h] == q[h]);
        }
    }
    // A plugin number in `q` at position `p` found in `q.take(u)` lies before `u`.
    assert forall|a: int, s: int|
        0 <= a < q2.len() && k2[a] < s < q2.len() implies !edge(
        plugins,
        #[trigger] q2[a] as int,
        #[trigger] q2[s] as int,
    ) by {
        if a < m {
            assert(q2[a] == q[a]);
            assert(k2[a] == keys[a]);
            if s < m {
                assert(q2[s] == q[s]);
            } else {
                let y = next[s - m];
                assert(q2[s] == y);
                if edge(plugins, q[a] as int, y as int) {
                    let u = if a < h { a } else { h };
                    assert(q.take(u).contains(y));
                    let z = choose|z: int| 0 <= z < u && q.take(u)[z] == y;
                    assert(q[z] == y);
                    assert(!q.contains(next[s - m]));
                }
            }
        } else {
            assert(q2[a] == next[a - m]);
            assert(k2[a] == h);
            if edge(plugins, next[a - m] as int, q2[s] as int) {
                assert(q.take(h + 1).contains(q2[s]));
                let z = choose|z: int| 0 <= z < h + 1 && #[trigger] q.take(h + 1)[z] == q2[s];
                assert(q[z] == q2[s]);
                if s < m {
                    assert(q2[s] == q[s]);
                } else {
                    assert(q2[s] == next[s - m]);
                    assert(!q.contains(next[s - m]));
                }
            }
        }
    }
    assert forall|a: int, b: int| 0 <= a < b < q2.len() implies #[trigger] k2[a] < #[trigger] k2[b]
        || (k2[a] == k2[b] && text_less(ks[q2[a] as int], ks[q2[b] as int])) by {
        if b < m {
            assert(k2[a] == keys[a] && k2[b] == keys[b]);
            assert(q2[a] == q[a] && q2[b] == q[b]);
        } else if a < m {
            assert(k2[a] == keys[a]);
            assert(k2[b] == h);
            if a > h && keys[a] >= 0 {
                assert(edge(plugins, q[a] as int, q[keys[a]] as int));
                assert(q.take(h).contains(q[keys[a]]));
                let z = choose|z: int| 0 <= z < h && q.take(h)[z] == q[keys[a]];
                assert(q[z] == q[keys[a]]);
            }
        } else {
            assert(k2[a] == h && k2[b] == h);
            assert(q2[a] == next[a - m] && q2[b] == next[b - m]);
        }
    }
}

/// The load state: `queue` holds, in order, the plugins taken out (the first
/// `head`) and those ready to be taken; `in_deg` counts pending dependencies.
spec fn load_state(
    plugins: NameMap<PluginManifest>,
    adj: Seq<Vec<usize>>,
    in_deg: Seq<usize>,
    queue: Seq<usize>,
    head: int,
) -> bool {
    let n = node_count(plugins);
    &&& in_deg.len() == n
    &&& queue.no_duplicates()
    &&& forall|k: int| 0 <= k < queue.len() ==> #[trigger] queue[k] < n
    &&& queue.len() <= n
    &&& 0 <= head <= queue.len()
    &&& forall|u: usize| u < n ==> #[trigger] in_deg[u as int] == pending(adj[u as int]@, queue.take(head))
    &&& forall|t: int| head <= t < queue.len() ==> pending(adj[#[trigger] queue[t] as int]@, queue.take(head)) == 0
    &&& forall|t: int, v: usize|
        0 <= t < head && v < n && #[trigger] edge(plugins, queue[t] as int, v as int) ==> queue.take(t).contains(v)
    &&& forall|u: usize| u < n && !queue.contains(u) ==> #[trigger] in_deg[u as int] > 0
}

/// Orders the plugins so that each comes after all it depends on (Kahn's
/// algorithm): it starts from the plugins without dependencies, in name
/// order, and each plugin taken releases its dependents; those left without
/// pending dependencies follow, in name order.
fn load_order_numbers(plugins: &NameMap<PluginManifest>, adj: &Vec<Vec<usize>>) -> (q: Vec<usize>)
    requires
        adjacency_ok(*plugins, adj@),
        plugins.key_seq().no_duplicates(),
        !has_dependency_cycle(plugins@),
    ensures
        q@.len() == node_count(*plugins),
        q@.no_duplicates(),
        forall|k: int| 0 <= k < q@.len() ==> q@[k] < node_count(*plugins),
        forall|u: usize| u < node_count(*plugins) ==> q@.contains(u),
        forall|i: int, j: int|
            0 <= i < j < q@.len() ==> !edge(*plugins, #[trigger] q@[i] as int, #[trigger] q@[j] as int),
        forall|i: int, j: int|
            0 <= i < j < q@.len() ==> {
                let a = last_dependency_index(*plugins, q@, #[trigger] q@[i] as int, q@.len() as int);
                let b = last_dependency_index(*plugins, q@, #[trigger] q@[j] as int, q@.len() as int);
                a < b || (a == b && text_less(
                    plugins.key_seq()[q@[i] as int],
                    plugins.key_seq()[q@[j] as int],
                ))
            },
{
    let n = plugins.len();
    let rev = dependents_lists(plugins, adj);
    let mut in_deg: Vec<usize> = Vec::new();
    let mut i: usize = 0;
    while i < n
        invariant
            adjacency_ok(*plugins, adj@),
            n == node_count(*plugins),
            i <= n,
            in_deg@.len() == i,
            forall|x: int| 0 <= x < i ==> #[trigger] in_deg@[x] == adj@[x]@.len(),
        decreases n - i,
    {
        in_deg.push(adj[i].len());
        i = i + 1;
    }
    let mut queue: Vec<usize> = Vec::new();
    let mut i: usize = 0;
    while i < n
        invariant
            n == node_count(*plugins),
            in_deg@.len() == n,
            i <= n,
            queue@.no_duplicates(),
            forall|k: int| 0 <= k < queue@.len() ==> queue@[k] < i,
            forall|u: usize|
                #![trigger queue@.contains(u)]
                u < n ==> (queue@.contains(u) <==> (u < i && in_deg@[u as int] == 0)),
        decreases n - i,
    {
        if in_deg[i] == 0 {
            let ghost before = queue@;
            queue.push(i);
            proof {
                assert forall|u: usize|
                    #![trigger queue@.contains(u)]
                    u < n implies (queue@.contains(u) <==> (u < i + 1 && in_deg@[u as int] == 0)) by {
                    if queue@.contains(u) {
                        let t = choose|t: int| 0 <= t < queue@.len() && queue@[t] == u;
                        if t < before.len() {
                            assert(before[t] == u);
                        }
                    }
                    if before.contains(u) {
                        let t = choose|t: int| 0 <= t < before.len() && before[t] == u;
                        assert(queue@[t] == u);
                    }
                    if u == i {
                        assert(queue@[queue@.len() - 1] == u);
                    }
                }
            }
        }
        i = i + 1;
    }
    let ghost unsorted = queue@;
    sort_by_name(plugins, &mut queue);
    let ghost mut keys: Seq<int> = Seq::new(queue@.len(), |_i: int| -1int);
    proof {
        assert(ready_keys(*plugins, queue@, keys)) by {
            assert forall|a: int, s: int|
                0 <= a < queue@.len() && keys[a] < s < queue@.len() implies !edge(
                *plugins,
                #[trigger] queue@[a] as int,
                #[trigger] queue@[s] as int,
            ) by {
                let u = queue@[a];
                assert(queue@.contains(u));
                assert(unsorted.contains(u));
                assert(in_deg@[u as int] == 0);
                assert(adj@[u as int]@.len() == 0);
                if edge(*plugins, u as int, queue@[s] as int) {
                    assert(adj@[u as int]@.contains(queue@[s]));
                }
            }
        }
        lemma_distinct_bounded(queue@, n as int);
        assert(queue@.take(0) =~= Seq::<usize>::empty());
        assert forall|u: usize| u < n implies #[trigger] in_deg@[u as int] == pending(adj@[u as int]@, queue@.take(0)) by {
            lemma_pending_empty(adj@[u as int]@);
        }
        assert forall|t: int| 0 <= t < queue@.len() implies pending(adj@[#[trigger] queue@[t] as int]@, queue@.take(0)) == 0 by {
            assert(queue@.contains(queue@[t]));
            lemma_pending_empty(adj@[queue@[t] as int]@);
        }
    }
    let mut head: usize = 0;
    while head < queue.len()
        invariant
            adjacency_ok(*plugins, adj@),
            dependents_ok(*plugins, rev@),
            plugins.key_seq().no_duplicates(),
            n == node_count(*plugins),
            load_state(*plugins, adj@, in_deg@, queue@, head as int),
            ready_keys(*plugins, queue@, keys),
        decreases n - head,
    {
        let node = queue[head];
        let ghost out = queue@.take(head as int);
        let ghost old_queue = queue@;
        let ghost old_deg = in_deg@;
        proof {
            assert(!out.contains(node)) by {
                if out.contains(node) {
                    let t = choose|t: int| 0 <= t < out.len() && out[t] == node;
                    assert(queue@[t] == queue@[head as int]);
                }
            }
            assert forall|k: int| 0 <= k < rev@[node as int]@.len() implies in_deg@[#[trigger] rev@[node as int]@[k] as int] >= 1 by {
                let x = rev@[node as int]@[k];
                assert(rev@[node as int]@.contains(x));
                assert(edge(*plugins, x as int, node as int));
                assert(adj@[x as int]@.contains(node));
                lemma_pending_member(adj@[x as int]@, out, node);
            }
        }
        let mut next = release(&rev[node], &mut in_deg);
        proof {
            assert forall|k: int| 0 <= k < next@.len() implies next@[k] < plugins.entry_seq().len() by {
                assert(next@.contains(next@[k]));
                assert(rev@[node as int]@.contains(next@[k]));
                let z = choose|z: int| 0 <= z < rev@[node as int]@.len() && rev@[node as int]@[z] == next@[k];
            }
        }
        sort_by_name(plugins, &mut next);
        let ghost released = in_deg@;
        let ghost out2 = out.push(node);
        proof {
            assert(old_queue.take(head + 1) =~= out2);
            assert forall|u: usize| u < n implies #[trigger] released[u as int] == pending(adj@[u as int]@, out2) by {
                lemma_pending_push(adj@[u as int]@, out, node);
                assert(rev@[node as int]@.contains(u) <==> edge(*plugins, u as int, node as int));
                assert(adj@[u as int]@.contains(node) <==> edge(*plugins, u as int, node as int));
            }
            assert forall|u: usize| next@.contains(u) implies !old_queue.contains(u) && u < n by {
                assert(rev@[node as int]@.contains(u));
                let k = choose|k: int| 0 <= k < rev@[node as int]@.len() && rev@[node as int]@[k] == u;
                assert(edge(*plugins, u as int, node as int));
                assert(adj@[u as int]@.contains(node));
                lemma_pending_member(adj@[u as int]@, out, node);
                if old_queue.contains(u) {
                    let t = choose|t: int| 0 <= t < old_queue.len() && old_queue[t] == u;
                    if t >= head {
                    } else {
                        assert(old_queue.take(t).contains(node));
                        let z = choose|z: int| 0 <= z < t && old_queue.take(t)[z] == node;
                        assert(old_queue[z] == old_queue[head as int]);
                    }
                }
            }
        }
        let m = next.len();
        let mut k: usize = 0;
        while k < m
            invariant
                m == next@.len(),
                k <= m,
                next@.no_duplicates(),
                forall|u: usize| next@.contains(u) ==> !old_queue.contains(u) && u < n,
                old_queue.no_duplicates(),
                queue@ == old_queue + next@.take(k as int),
            decreases m - k,
        {
            let ghost before = queue@;
            queue.push(next[k]);
            proof {
                assert(next@.take(k + 1) =~= next@.take(k as int).push(next@[k as int]));
                assert(queue@ =~= old_queue + next@.take(k + 1));
            }
            k = k + 1;
        }
        proof {
            assert(next@.take(m as int) =~= next@);
            let q2 = queue@;
            assert(q2.take(head + 1) =~= out2);
            assert(q2.no_duplicates()) by {
                assert forall|a: int, b: int| 0 <= a < q2.len() && 0 <= b < q2.len() && a != b implies q2[a] != q2[b] by {
                    if a >= old_queue.len() && b >= old_queue.len() {
                        assert(q2[a] == next@[a - old_queue.len()]);
                        assert(q2[b] == next@[b - old_queue.len()]);
                    } else if a >= old_queue.len() {
                        assert(next@.contains(q2[a]));
                        assert(old_queue.contains(q2[b]));
                    } else if b >= old_queue.len() {
                        assert(next@.contains(q2[b]));
                        assert(old_queue.contains(q2[a]));
                    }
                }
            }
            assert forall|x: int| 0 <= x < q2.len() implies #[trigger] q2[x] < n by {
                if x >= old_queue.len() {
                    assert(next@.contains(q2[x]));
                }
            }
            lemma_distinct_bounded(q2, n as int);
            assert forall|t: int| head + 1 <= t < q2.len() implies pending(adj@[#[trigger] q2[t] as int]@, q2.take(head + 1)) == 0 by {
                if t < old_queue.len() {
                    lemma_pending_monotone(adj@[q2[t] as int]@, out, out2);
                } else {
                    assert(next@.contains(q2[t]));
                }
            }
            assert forall|t: int, v: usize|
                0 <= t < head + 1 && v < n && #[trigger] edge(*plugins, q2[t] as int, v as int) implies q2.take(t).contains(v) by {
                if t < head {
                    assert(q2.take(t) =~= old_queue.take(t));
                } else {
                    assert(q2.take(t) =~= out);
                    assert(adj@[node as int]@.contains(v));
                    lemma_pending_zero(adj@[node as int]@, out);
                    let z = choose|z: int| 0 <= z < adj@[node as int]@.len() && adj@[node as int]@[z] == v;
                    assert(out.contains(adj@[node as int]@[z]));
                }
            }
            assert forall|u: usize| u < n && !q2.contains(u) implies #[trigger] released[u as int] > 0 by {
                assert(!old_queue.contains(u)) by {
                    if old_queue.contains(u) {
                        let t = choose|t: int| 0 <= t < old_queue.len() && old_queue[t] == u;
                        assert(q2[t] == u);
                    }
                }
                assert(old_deg[u as int] > 0);
                if released[u as int] == 0 {
                    assert(rev@[node as int]@.contains(u));
                    assert(next@.contains(u));
                    let t = choose|t: int| 0 <= t < next@.len() && next@[t] == u;
                    assert(q2[old_queue.len() + t] == u);
                }
            }
            assert forall|u: usize| u < n implies #[trigger] in_deg@[u as int] == pending(adj@[u as int]@, q2.take(head + 1)) by {
                assert(released[u as int] == pending(adj@[u as int]@, out2));
            }
        }
        proof {
            let h = head as int;
            assert forall|t: int, v: usize|
                0 <= t < old_queue.len() && #[trigger] edge(*plugins, old_queue[t] as int, v as int)
                    implies old_queue.take(if t < h { t } else { h }).contains(v) by {
                if t >= h {
                    let l = adj@[old_queue[t] as int]@;
                    lemma_pending_zero(l, old_queue.take(h));
                    assert(l.contains(v));
                    let z = choose|z: int| 0 <= z < l.len() && l[z] == v;
                    assert(old_queue.take(h).contains(l[z]));
                }
            }
            assert forall|k: int| 0 <= k < next@.len() implies !old_queue.contains(#[trigger] next@[k]) by {
                assert(next@.contains(next@[k]));
            }
            assert forall|k: int| 0 <= k < next@.len() implies edge(
                *plugins,
                #[trigger] next@[k] as int,
                old_queue[h] as int,
            ) by {
                let y = next@[k];
                assert(next@.contains(y));
                assert(rev@[node as int]@.contains(y));
            }
            assert forall|k: int, v: usize|
                0 <= k < next@.len() && #[trigger] edge(*plugins, next@[k] as int, v as int)
                    implies old_queue.take(h + 1).contains(v) by {
                let y = next@[k];
                assert(next@.contains(y));
                assert(released[y as int] == 0);
                assert(released[y as int] == pending(adj@[y as int]@, out2));
                let l = adj@[y as int]@;
                lemma_pending_zero(l, out2);
                assert(l.contains(v));
                let z = choose|z: int| 0 <= z < l.len() && l[z] == v;
                assert(out2.contains(l[z]));
            }
            lemma_ready_keys_step(*plugins, old_queue, keys, h, next@);
            keys = keys + Seq::new(next@.len(), |_i: int| h);
        }
        head = head + 1;
    }
    proof {
        let q = queue@;
        assert(q.take(head as int) =~= q);
        assert forall|u: usize| u < n implies q.contains(u) by {
            if !q.contains(u) {
                assert forall|x: int| 0 <= x < n && !q.contains(x as usize) implies #[trigger] has_step_outside(*plugins, q, x) by {
                    assert(in_deg@[x as int] > 0);
                    lemma_pending_zero(adj@[x as int]@, q);
                    let z = choose|z: int| 0 <= z < adj@[x as int]@.len() && !q.contains(#[trigger] adj@[x as int]@[z]);
                    let v = adj@[x as int]@[z];
                    assert(adj@[x as int]@.contains(v));
                    assert(edge(*plugins, x, v as int));
                }
                lemma_closed_outside_has_cycle(*plugins, q, u as int);
            }
        }
        lemma_covering_len(q, n as int);
        assert forall|i: int, j: int| 0 <= i < j < q.len() implies !edge(*plugins, #[trigger] q[i] as int, #[trigger] q[j] as int) by {
            if edge(*plugins, q[i] as int, q[j] as int) {
                assert(q.take(i).contains(q[j]));
                let z = choose|z: int| 0 <= z < i && q.take(i)[z] == q[j];
                assert(q[z] == q[j]);
            }
        }
        assert forall|a: int| 0 <= a < q.len() implies last_dependency_index(
            *plugins,
            q,
            #[trigger] q[a] as int,
            q.len() as int,
        ) == keys[a] by {
            lemma_last_dependency_index(*plugins, q, q[a] as int, q.len() as int, keys[a]);
        }
    }
    queue
}

/// A dependency on `dep` with version requirement `req` is met by the
/// installed plugins: `dep` is installed and, when both the requirement and
/// the installed version can be read, the version matches the requirement.
pub open spec fn dependency_met(installed: NameMap<PluginManifest>, dep: Seq<char>, req: Seq<char>) -> bool {
    &&& installed@.dom().contains(dep)
    &&& (requirement_parses(req) && version_parses(installed@[dep].version@)) ==> requirement_matches(
        req,
        installed@[dep].version@,
    )
}

/// A dependency is judged by the installed plugin's own version: it is not
/// met when the plugin is not installed, or when the requirement and that
/// version both read and the version does not match; it is met otherwise.
pub proof fn lemma_dependency_met_by_version(
    installed: NameMap<PluginManifest>,
    dep: Seq<char>,
    req: Seq<char>,
)
    ensures
        !installed@.dom().contains(dep) ==> !dependency_met(installed, dep, req),
        installed@.dom().contains(dep) && requirement_parses(req) && version_parses(
            installed@[dep].version@,
        ) ==> (dependency_met(installed, dep, req) <==> requirement_matches(
            req,
            installed@[dep].version@,
        )),
        installed@.dom().contains(dep) && !(requirement_parses(req) && version_parses(
            installed@[dep].version@,
        )) ==> dependency_met(installed, dep, req),
{
}

/// The error for a dependency that is not met.
pub open spec fn dependency_error(
    installed: NameMap<PluginManifest>,
    plugin: Seq<char>,
    dep: Seq<char>,
    req: Seq<char>,
    e: PluginError,
) -> bool {
    if !installed@.dom().contains(dep) {
        e matches PluginError::MissingDependency { plugin: p, dependency: d, requirement: q } && p@
            == plugin && d@ == dep && q@ == req
    } else {
        e matches PluginError::DependencyVersionMismatch {
            plugin: p,
            dependency: d,
            requirement: q,
            installed: v,
        } && p@ == plugin && d@ == dep && q@ == req && v@ == installed@[dep].version@
    }
}

/// Orders and checks the dependencies between installed plugins.
pub struct DependencyResolver;

impl DependencyResolver {
    /// Looks for plugins that depend on each other in a circle (dependencies
    /// that are not installed are left out), by depth-first search from every
    /// plugin in name order, following dependencies in name order. The circle
    /// found (`found_cycle`) runs along dependencies and repeats its first
    /// name at the end; `None` means there is no circle at all.
    pub fn detect_cycle(plugins: &NameMap<PluginManifest>) -> (r: Option<Vec<String>>)
        ensures
            match r {
                Some(c) => is_dependency_cycle(plugins@, c@.map_values(|t: String| t@))
                    && c@.map_values(|t: String| t@).drop_last().no_duplicates()
                    && found_cycle(*plugins) == Some(c@.map_values(|t: String| t@)),
                None => !has_dependency_cycle(plugins@) && found_cycle(*plugins) is None,
            },
    {
        proof {
            use_type_invariant(plugins);
        }
        let adj = dependency_lists(plugins);
        match find_index_cycle(plugins, &adj) {
            Some(c) => {
                proof {
                    let cs = c@.map_values(|x: usize| x as int);
                    assert forall|k: int| 0 <= k < c@.len() implies c@[k] < node_count(*plugins) by {
                        if k < c@.len() - 1 {
                            assert(edge(*plugins, cs[k], cs[k + 1]));
                        } else {
                            assert(edge(*plugins, cs[0], cs[1]));
                        }
                    }
                }
                let names = index_names(plugins, &c);
                proof {
                    lemma_index_cycle_names(*plugins, c@.map_values(|x: usize| x as int));
                    let nv = names@.map_values(|t: String| t@);
                    let ks = plugins.key_seq();
                    assert forall|a: int, b: int|
                        0 <= a < nv.drop_last().len() && 0 <= b < nv.drop_last().len() && a != b
                            implies nv.drop_last()[a] != nv.drop_last()[b] by {
                        assert(nv[a] == ks[c@[a] as int]);
                        assert(nv[b] == ks[c@[b] as int]);
                        assert(c@.drop_last()[a] != c@.drop_last()[b]);
                        assert(c@[a] < node_count(*plugins));
                        assert(c@[b] < node_count(*plugins));
                    }
                }
                Some(names)
            },
            None => None,
        }
    }

    /// What checking one dependency comes to, given the installed version of
    /// the dependency (`None` when it is not installed) and whether that
    /// version meets the requirement.
    pub fn dependency_verdict(
        plugin: &str,
        dependency: &str,
        requirement: &str,
        installed_version: Option<&str>,
        requirement_met: bool,
    ) -> (r: Result<(), PluginError>)
        ensures
            installed_version is None ==> (r matches Err(
                PluginError::MissingDependency { plugin: p, dependency: d, requirement: q },
            ) && p@ == plugin@ && d@ == dependency@ && q@ == requirement@),
            installed_version matches Some(v) ==> (requirement_met ==> r is Ok) && (!requirement_met
                ==> (r matches Err(
                PluginError::DependencyVersionMismatch {
                    plugin: p,
                    dependency: d,
                    requirement: q,
                    installed: i,
                },
            ) && p@ == plugin@ && d@ == dependency@ && q@ == requirement@ && i@ == v@)),
    {
        match installed_version {
            None => Err(
                PluginError::MissingDependency {
                    plugin: String::from_str(plugin),
                    dependency: String::from_str(dependency),
                    requirement: String::from_str(requirement),
                },
            ),
            Some(v) => {
                if requirement_met {
                    Ok(())
                } else {
                    Err(
                        PluginError::DependencyVersionMismatch {
                            plugin: String::from_str(plugin),
                            dependency: String::from_str(dependency),
                            requirement: String::from_str(requirement),
                            installed: String::from_str(v),
                        },
                    )
                }
            },
        }
    }

    /// Checks that every dependency of a plugin is installed and, where the
    /// requirement and the installed version can be read, that the version
    /// matches. The first dependency (in the manifest's order) that is not
    /// met gives the error.
    pub fn validate_dependencies(plugin: &PluginManifest, installed: &NameMap<PluginManifest>) -> (r:
        Result<(), PluginError>)
        ensures
            r is Ok <==> forall|i: int|
                0 <= i < plugin.dependencies.entry_seq().len() ==> dependency_met(
                    *installed,
                    #[trigger] plugin.dependencies.entry_seq()[i].0,
                    plugin.dependencies.entry_seq()[i].1@,
                ),
            r matches Err(e) ==> exists|i: int|
                0 <= i < plugin.dependencies.entry_seq().len() && (forall|j: int|
                    0 <= j < i ==> dependency_met(
                        *installed,
                        #[trigger] plugin.dependencies.entry_seq()[j].0,
                        plugin.dependencies.entry_seq()[j].1@,
                    )) && !dependency_met(
                    *installed,
                    plugin.dependencies.entry_seq()[i].0,
                    plugin.dependencies.entry_seq()[i].1@,
                ) && dependency_error(
                    *installed,
                    plugin.name@,
                    plugin.dependencies.entry_seq()[i].0,
                    plugin.dependencies.entry_seq()[i].1@,
                    e,
                ),
            forall|i: int|
                0 <= i < plugin.dependencies.entry_seq().len() && !installed@.dom().contains(
                    #[trigger] plugin.dependencies.entry_seq()[i].0,
                ) ==> r is Err,
            forall|i: int|
                0 <= i < plugin.dependencies.entry_seq().len() && installed@.dom().contains(
                    #[trigger] plugin.dependencies.entry_seq()[i].0,
                ) && requirement_parses(plugin.dependencies.entry_seq()[i].1@) && version_parses(
                    installed@[plugin.dependencies.entry_seq()[i].0].version@,
                ) && !requirement_matches(
                    plugin.dependencies.entry_seq()[i].1@,
                    installed@[plugin.dependencies.entry_seq()[i].0].version@,
                ) ==> r is Err,
            r matches Err(PluginError::MissingDependency { plugin: p, dependency: d, requirement: q })
                ==> p@ == plugin.name@ && !installed@.dom().contains(d@)
                && plugin.dependencies@.dom().contains(d@) && plugin.dependencies@[d@]@ == q@,
            r matches Err(
                PluginError::DependencyVersionMismatch {
                    plugin: p,
                    dependency: d,
                    requirement: q,
                    installed: v,
                },
            ) ==> p@ == plugin.name@ && installed@.dom().contains(d@) && v@ == installed@[d@].version@
                && plugin.dependencies@.dom().contains(d@) && plugin.dependencies@[d@]@ == q@
                && requirement_parses(q@) && version_parses(v@) && !requirement_matches(q@, v@),
    {
        proof {
            use_type_invariant(&plugin.dependencies);
        }
        let deps = &plugin.dependencies;
        let ghost es = deps.entry_seq();
        let m = deps.len();
        let mut k: usize = 0;
        while k < m
            invariant
                deps == plugin.dependencies,
                es == deps.entry_seq(),
                m == es.len(),
                k <= m,
                forall|j: int| 0 <= j < k ==> dependency_met(*installed, #[trigger] es[j].0, es[j].1@),
            decreases m - k,
        {
            let name = deps.key_at(k);
            let req = deps.value_at(k);
            let found = installed.get(name.as_str());
            let (version, met) = match found {
                None => (None, true),
                Some(dep_manifest) => {
                    let met = match parse_requirement(req.as_str()) {
                        Ok(q) => match parse_version(dep_manifest.version.as_str()) {
                            Ok(v) => matches_requirement(&q, &v),
                            Err(_) => true,
                        },
                        Err(_) => true,
                    };
                    (Some(dep_manifest.version.as_str()), met)
                },
            };
            let verdict = Self::dependency_verdict(
                plugin.name.as_str(),
                name.as_str(),
                req.as_str(),
                version,
                met,
            );
            match verdict {
                Ok(()) => {},
                Err(e) => {
                    proof {
                        use_type_invariant(&plugin.dependencies);
                        plugin.dependencies.lemma_view();
                        assert(plugin.dependencies@.dom().contains(es[k as int].0));
                        assert(plugin.dependencies@[es[k as int].0] == es[k as int].1);
                        assert(!dependency_met(*installed, es[k as int].0, es[k as int].1@));
                        assert(dependency_error(
                            *installed,
                            plugin.name@,
                            es[k as int].0,
                            es[k as int].1@,
                            e,
                        ));
                    }
                    return Err(e);
                },
            }
            k = k + 1;
        }
        Ok(())
    }

    /// The order in which to load the installed plugins: each plugin comes
    /// after every installed plugin it depends on (dependencies that are not
    /// installed are left out). Plugins that depend on each other in a circle
    /// cannot be ordered; the error names the circle that `detect_cycle`
    /// finds.
    pub fn resolve(plugins: &NameMap<PluginManifest>) -> (r: Result<Vec<String>, PluginError>)
        ensures
            match r {
                Ok(order) => !has_dependency_cycle(plugins@) && is_load_order(
                    plugins@,
                    order@.map_values(|t: String| t@),
                ) && is_ready_order(plugins@, order@.map_values(|t: String| t@)),
                Err(e) => has_dependency_cycle(plugins@) && (e matches PluginError::CycleDetected {
                    cycle,
                } && is_dependency_cycle(plugins@, cycle@.map_values(|t: String| t@))
                    && cycle@.map_values(|t: String| t@).drop_last().no_duplicates()
                    && found_cycle(*plugins) == Some(cycle@.map_values(|t: String| t@))),
            },
    {
        proof {
            use_type_invariant(plugins);
        }
        match Self::detect_cycle(plugins) {
            Some(cycle) => {
                return Err(PluginError::CycleDetected { cycle });
            },
            None => {},
        }
        let adj = dependency_lists(plugins);
        let q = load_order_numbers(plugins, &adj);
        let order = index_names(plugins, &q);
        proof {
            let ks = plugins.key_seq();
            let o = order@.map_values(|t: String| t@);
            let qi = q@.map_values(|x: usize| x as int);
            assert(o == names_of(*plugins, qi));
            lemma_edge_depends(*plugins);
            plugins.lemma_view();
            assert(o.no_duplicates()) by {
                assert forall|a: int, b: int| 0 <= a < o.len() && 0 <= b < o.len() && a != b implies o[a] != o[b] by {
                    assert(o[a] == ks[q@[a] as int]);
                    assert(o[b] == ks[q@[b] as int]);
                    assert(q@[a] != q@[b]);
                }
            }
            assert forall|k: Seq<char>| #[trigger] plugins@.dom().contains(k) <==> o.contains(k) by {
                if plugins@.dom().contains(k) {
                    let x = choose|x: int| 0 <= x < ks.len() && ks[x] == k;
                    assert(q@.contains(x as usize));
                    let y = choose|y: int| 0 <= y < q@.len() && q@[y] == x as usize;
                    assert(o[y] == k);
                }
                if o.contains(k) {
                    let y = choose|y: int| 0 <= y < o.len() && o[y] == k;
                    assert(o[y] == ks[q@[y] as int]);
                    assert(ks.contains(k));
                }
            }
            assert forall|a: int, b: int| 0 <= a < b < o.len() implies !depends_on(
                plugins@,
                #[trigger] o[a],
                #[trigger] o[b],
            ) by {
                assert(!edge(*plugins, q@[a] as int, q@[b] as int));
                assert(o[a] == ks[q@[a] as int]);
                assert(o[b] == ks[q@[b] as int]);
            }
            assert forall|a: int, b: int| 0 <= a < b < o.len() implies {
                let x = last_dependency_before(plugins@, o, #[trigger] o[a], o.len() as int);
                let y = last_dependency_before(plugins@, o, #[trigger] o[b], o.len() as int);
                x < y || (x == y && text_less(o[a], o[b]))
            } by {
                assert(o[a] == ks[q@[a] as int]);
                assert(o[b] == ks[q@[b] as int]);
                lemma_last_dependency_names(*plugins, q@, q@[a] as int, q@.len() as int);
                lemma_last_dependency_names(*plugins, q@, q@[b] as int, q@.len() as int);
                assert(names_of(*plugins, q@.map_values(|u: usize| u as int)) == o);
            }
        }
        Ok(order)
    }
}

} // verus!
