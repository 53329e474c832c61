use vstd::prelude::*;

use super::manifest::PluginManifest;
use super::name_map::{entries_to_map, NameMap};
use super::text::same_text;

verus! {

/// A JSON value of the template context, carried through unread.
#[verifier::external_type_specification]
#[verifier::external_body]
pub struct ExJsonValue(serde_json::Value);

/// Cloning a JSON value gives an equal value (`#[derive(Clone)]` in
/// `serde_json`).
pub assume_specification[ <serde_json::Value as Clone>::clone ](v: &serde_json::Value) -> (r:
    serde_json::Value)
    ensures
        r == *v,
;

/// The points of project generation at which plugins are called.
#[derive(Debug, Clone, Copy, PartialEq, Eq, Hash)]
pub enum HookPoint {
    PreGenerate,
    PostGenerate,
    ModifyContext,
    ModifyTemplates,
}

/// The name under which manifests list a hook point.
pub open spec fn hook_point_name(h: HookPoint) -> Seq<char> {
    match h {
        HookPoint::PreGenerate => "pre_generate"@,
        HookPoint::PostGenerate => "post_generate"@,
        HookPoint::ModifyContext => "modify_context"@,
        HookPoint::ModifyTemplates => "modify_templates"@,
    }
}

impl HookPoint {
    /// The hook point a manifest name stands for.
    pub fn from_str(s: &str) -> (r: Option<Self>)
        ensures
            r matches Some(h) ==> hook_point_name(h) == s@,
            r is None ==> (forall|h: HookPoint| hook_point_name(h) != s@),
    {
        if same_text(s, "pre_generate") {
            Some(HookPoint::PreGenerate)
        } else if same_text(s, "post_generate") {
            Some(HookPoint::PostGenerate)
        } else if same_text(s, "modify_context") {
            Some(HookPoint::ModifyContext)
        } else if same_text(s, "modify_templates") {
            Some(HookPoint::ModifyTemplates)
        } else {
            proof {
                assert forall|h: HookPoint| hook_point_name(h) != s@ by {
                    match h {
                        HookPoint::PreGenerate => {},
                        HookPoint::PostGenerate => {},
                        HookPoint::ModifyContext => {},
                        HookPoint::ModifyTemplates => {},
                    }
                }
            }
            None
        }
    }

    /// The name under which manifests list this hook point.
    pub fn name(&self) -> (r: &'static str)
        ensures
            r@ == hook_point_name(*self),
    {
        match self {
            HookPoint::PreGenerate => "pre_generate",
            HookPoint::PostGenerate => "post_generate",
            HookPoint::ModifyContext => "modify_context",
            HookPoint::ModifyTemplates => "modify_templates",
        }
    }
}

/// What a hook is run with.
#[derive(Debug, Clone)]
pub struct PluginContext {
    /// The tool's version.
    pub tool_version: String,
    /// The directory of the project being generated.
    pub project_dir: String,
    /// The plugin's configuration.
    pub plugin_config: toml::Value,
    /// The plugin's directory.
    pub plugin_dir: String,
}

/// What running one plugin's hook gave.
#[derive(Debug, Clone, PartialEq)]
pub struct HookResult {
    /// The plugin.
    pub plugin_name: String,
    /// Whether the hook succeeded.
    pub success: bool,
    /// What went wrong, if anything.
    pub error: Option<String>,
    /// Template context variables the hook adds.
    pub context_additions: NameMap<serde_json::Value>,
    /// Templates the hook adds or replaces.
    pub template_additions: NameMap<String>,
}

/// A plugin loaded for use: its manifest, directory and templates.
#[derive(Debug, Clone, PartialEq)]
pub struct LoadedPlugin {
    /// Its manifest.
    pub manifest: PluginManifest,
    /// Its directory.
    pub dir: String,
    /// Its templates, by path relative to its templates directory.
    pub templates: NameMap<String>,
}

/// `idx` lists every position of `s` once, ordered by priority and, among
/// equal priorities, by position (the order of a stable sort by priority).
pub open spec fn is_priority_order(s: Seq<LoadedPlugin>, idx: Seq<int>) -> bool {
    &&& idx.len() == s.len()
    &&& forall|a: int| 0 <= a < idx.len() ==> 0 <= #[trigger] idx[a] < s.len()
    &&& forall|a: int, b: int|
        0 <= a < b < idx.len() ==> {
            ||| s[#[trigger] idx[a]].manifest.priority < s[#[trigger] idx[b]].manifest.priority
            ||| (s[idx[a]].manifest.priority == s[idx[b]].manifest.priority && idx[a] < idx[b])
        }
}

/// The plugins of `s` picked by `idx`, in that order.
pub open spec fn pick(s: Seq<LoadedPlugin>, idx: Seq<int>) -> Seq<LoadedPlugin> {
    idx.map_values(|k: int| s[k])
}

/// A plugin registered for the hook point (its manifest lists the name).
pub open spec fn registers(p: LoadedPlugin, hook: HookPoint) -> bool {
    exists|i: int|
        0 <= i < p.manifest.capabilities.hooks@.len()
            && (#[trigger] p.manifest.capabilities.hooks@[i])@ == hook_point_name(hook)
}

/// The plugins registered for a hook point, in their order.
pub open spec fn registered(s: Seq<LoadedPlugin>, hook: HookPoint) -> Seq<LoadedPlugin>
    decreases s.len(),
{
    if s.len() == 0 {
        s
    } else if registers(s.last(), hook) {
        registered(s.drop_last(), hook).push(s.last())
    } else {
        registered(s.drop_last(), hook)
    }
}

/// The result of a hook that ran: it succeeded and added nothing.
pub open spec fn succeeded_for(r: HookResult, p: LoadedPlugin) -> bool {
    &&& r.plugin_name@ == p.manifest.name@
    &&& r.success
    &&& r.error is None
    &&& r.context_additions@ == Map::<Seq<char>, serde_json::Value>::empty()
    &&& r.template_additions@ == Map::<Seq<char>, String>::empty()
}

/// The positions of a sequence of priorities, stably sorted by priority.
fn priority_order(prio: &Vec<u32>) -> (idx: Vec<usize>)
    ensures
        idx@.len() == prio@.len(),
        idx@.no_duplicates(),
        forall|a: int| 0 <= a < idx@.len() ==> #[trigger] idx@[a] < prio@.len(),
        forall|a: int, b: int|
            0 <= a < b < idx@.len() ==> {
                ||| prio@[#[trigger] idx@[a] as int] < prio@[#[trigger] idx@[b] as int]
                ||| (prio@[idx@[a] as int] == prio@[idx@[b] as int] && idx@[a] < idx@[b])
            },
{
    let n = prio.len();
    let mut v: Vec<usize> = Vec::new();
    let mut i: usize = 0;
    while i < n
        invariant
            n == prio@.len(),
            i <= n,
            v@.len() == i,
            forall|k: int| 0 <= k < i ==> v@[k] == k,
        decreases n - i,
    {
        v.push(i);
        i = i + 1;
    }
    let mut i: usize = 0;
    while i < n
        invariant
            n == prio@.len(),
            v@.len() == n,
            i <= n,
            forall|k: int| i <= k < n ==> v@[k] == k,
            forall|k: int| 0 <= k < i ==> v@[k] < i,
            forall|a: int, b: int| 0 <= a < i && 0 <= b < i && a != b ==> v@[a] != v@[b],
            forall|a: int, b: int|
                0 <= a < b < i ==> {
                    ||| prio@[v@[a] as int] < prio@[v@[b] as int]
                    ||| (prio@[v@[a] as int] == prio@[v@[b] as int] && v@[a] < v@[b])
                },
        decreases n - i,
    {
        let mut j: usize = i;
        while j > 0 && prio[v[j]] < prio[v[j - 1]]
            invariant
                n == prio@.len(),
                v@.len() == n,
                i < n,
                j <= i,
                v@[j as int] == i,
                forall|k: int| i < k < n ==> v@[k] == k,
                forall|k: int| 0 <= k <= i ==> v@[k] <= i,
                forall|a: int, b: int| 0 <= a <= i && 0 <= b <= i && a != b ==> v@[a] != v@[b],
                forall|a: int, b: int|
                    0 <= a < b <= i && a != j && b != j ==> {
                        ||| prio@[v@[a] as int] < prio@[v@[b] as int]
                        ||| (prio@[v@[a] as int] == prio@[v@[b] as int] && v@[a] < v@[b])
                    },
                forall|b: int| j < b <= i ==> prio@[i as int] < prio@[v@[b] as int],
                j > 0 && j < i ==> ({
                    ||| prio@[v@[j - 1] as int] < prio@[v@[j + 1] as int]
                    ||| (prio@[v@[j - 1] as int] == prio@[v@[j + 1] as int] && v@[j - 1] < v@[j
                        + 1])
                }),
            decreases j,
        {
            let ghost before = v@;
            let a = v[j - 1];
            v.set(j - 1, i);
            v.set(j, a);
            proof {
                assert(v@ =~= before.update(j - 1, i).update(j as int, a));
            }
            j = j - 1;
        }
        proof {
            let w = v@;
            assert forall|a: int, b: int| 0 <= a < b < i + 1 implies {
                ||| prio@[w[a] as int] < prio@[w[b] as int]
                ||| (prio@[w[a] as int] == prio@[w[b] as int] && w[a] < w[b])
            } by {
                if a == j as int {
                    // the inserted position is after everything before it
                } else if b == j as int {
                    if a < j - 1 {
                        assert(w[j - 1] < i);
                    }
                    assert(w[a] < i);
                }
            }
        }
        i = i + 1;
    }
    v
}

/// Runs plugin hooks in priority order.
pub struct HookExecutor;

impl HookExecutor {
    /// The plugins ordered by priority, lower numbers first; plugins of equal
    /// priority keep their order (a stable sort).
    pub fn sort_by_priority(plugins: &[LoadedPlugin]) -> (r: Vec<&LoadedPlugin>)
        ensures
            exists|idx: Seq<int>|
                #[trigger] is_priority_order(plugins@, idx) && r@.map_values(|p: &LoadedPlugin| *p)
                    == pick(plugins@, idx),
    {
        let n = plugins.len();
        let mut prio: Vec<u32> = Vec::new();
        let mut i: usize = 0;
        while i < n
            invariant
                n == plugins@.len(),
                i <= n,
                prio@.len() == i,
                forall|k: int| 0 <= k < i ==> prio@[k] == plugins@[k].manifest.priority,
            decreases n - i,
        {
            prio.push(plugins[i].manifest.priority);
            i = i + 1;
        }
        let order = priority_order(&prio);
        let mut r: Vec<&LoadedPlugin> = Vec::new();
        let mut k: usize = 0;
        while k < n
            invariant
                n == plugins@.len(),
                order@.len() == n,
                forall|a: int| 0 <= a < n ==> #[trigger] order@[a] < n,
                k <= n,
                r@.len() == k,
                forall|a: int| 0 <= a < k ==> *(#[trigger] r@[a]) == plugins@[order@[a] as int],
            decreases n - k,
        {
            r.push(&plugins[order[k]]);
            k = k + 1;
        }
        proof {
            let idx = order@.map_values(|x: usize| x as int);
            assert(is_priority_order(plugins@, idx)) by {
                assert forall|a: int, b: int| 0 <= a < b < idx.len() implies {
                    ||| plugins@[#[trigger] idx[a]].manifest.priority < plugins@[#[trigger] idx[b]].manifest.priority
                    ||| (plugins@[idx[a]].manifest.priority == plugins@[idx[b]].manifest.priority
                        && idx[a] < idx[b])
                } by {
                    assert(prio@[order@[a] as int] == plugins@[order@[a] as int].manifest.priority);
                    assert(prio@[order@[b] as int] == plugins@[order@[b] as int].manifest.priority);
                }
            }
            assert(r@.map_values(|p: &LoadedPlugin| *p) =~= pick(plugins@, idx));
        }
        r
    }

    /// Runs the hook of every plugin registered for a hook point, in priority
    /// order (lower numbers first, equal priorities in plugin order). Each
    /// hook's outcome is recorded; none stops the others. Hooks are declared
    /// in manifests only: running one succeeds and adds nothing.
    pub fn execute(hook: HookPoint, plugins: &[LoadedPlugin], context: &mut PluginContext) -> (r: Vec<
        HookResult,
    >)
        ensures
            exists|idx: Seq<int>|
                #[trigger] is_priority_order(registered(plugins@, hook), idx) && r@.len() == idx.len()
                    && forall|a: int|
                    0 <= a < r@.len() ==> succeeded_for(
                        #[trigger] r@[a],
                        registered(plugins@, hook)[idx[a]],
                    ),
            *final(context) == *old(context),
    {
        let hook_name = hook.name();
        let n = plugins.len();
        let mut eligible: Vec<&LoadedPlugin> = Vec::new();
        let mut i: usize = 0;
        while i < n
            invariant
                n == plugins@.len(),
                i <= n,
                hook_name@ == hook_point_name(hook),
                eligible@.map_values(|p: &LoadedPlugin| *p) == registered(plugins@.take(i as int), hook),
            decreases n - i,
        {
            proof {
                let t = plugins@.take(i + 1);
                assert(t.drop_last() =~= plugins@.take(i as int));
                assert(t.last() == plugins@[i as int]);
            }
            let p = &plugins[i];
            if Self::registers_for(p, hook_name) {
                let ghost before = eligible@;
                eligible.push(p);
                proof {
                    assert(eligible@.map_values(|p: &LoadedPlugin| *p) =~= before.map_values(
                        |p: &LoadedPlugin| *p,
                    ).push(*p));
                }
            }
            i = i + 1;
        }
        proof {
            assert(plugins@.take(n as int) =~= plugins@);
        }
        let ghost chosen = eligible@.map_values(|p: &LoadedPlugin| *p);
        let m = eligible.len();
        let mut prio: Vec<u32> = Vec::new();
        let mut i: usize = 0;
        while i < m
            invariant
                m == eligible@.len(),
                i <= m,
                prio@.len() == i,
                forall|k: int| 0 <= k < i ==> prio@[k] == eligible@[k].manifest.priority,
            decreases m - i,
        {
            prio.push(eligible[i].manifest.priority);
            i = i + 1;
        }
        let order = priority_order(&prio);
        let mut results: Vec<HookResult> = Vec::new();
        let mut k: usize = 0;
        while k < m
            invariant
                m == eligible@.len(),
                order@.len() == m,
                forall|a: int| 0 <= a < m ==> #[trigger] order@[a] < m,
                k <= m,
                results@.len() == k,
                *context == *old(context),
                forall|a: int| 0 <= a < k ==> succeeded_for(#[trigger] results@[a], *eligible@[order@[a] as int]),
            decreases m - k,
        {
            let res = Self::execute_single_hook(&hook, eligible[order[k]], context);
            results.push(res);
            k = k + 1;
        }
        proof {
            let idx = order@.map_values(|x: usize| x as int);
            assert(is_priority_order(chosen, idx)) by {
                assert forall|a: int, b: int| 0 <= a < b < idx.len() implies {
                    ||| chosen[#[trigger] idx[a]].manifest.priority < chosen[#[trigger] idx[b]].manifest.priority
                    ||| (chosen[idx[a]].manifest.priority == chosen[idx[b]].manifest.priority
                        && idx[a] < idx[b])
                } by {
                    assert(prio@[order@[a] as int] == eligible@[order@[a] as int].manifest.priority);
                    assert(prio@[order@[b] as int] == eligible@[order@[b] as int].manifest.priority);
                }
            }
            assert forall|a: int| 0 <= a < results@.len() implies succeeded_for(
                #[trigger] results@[a],
                chosen[idx[a]],
            ) by {}
        }
        results
    }

    /// Whether a plugin lists the hook name among its hooks.
    fn registers_for(p: &LoadedPlugin, hook_name: &str) -> (r: bool)
        ensures
            forall|h: HookPoint| hook_point_name(h) == hook_name@ ==> (r == registers(*p, h)),
            r <==> exists|i: int|
                0 <= i < p.manifest.capabilities.hooks@.len()
                    && (#[trigger] p.manifest.capabilities.hooks@[i])@ == hook_name@,
    {
        let hooks = &p.manifest.capabilities.hooks;
        let m = hooks.len();
        let mut k: usize = 0;
        while k < m
            invariant
                m == hooks@.len(),
                hooks == p.manifest.capabilities.hooks,
                k <= m,
                forall|x: int| 0 <= x < k ==> (#[trigger] hooks@[x])@ != hook_name@,
            decreases m - k,
        {
            if same_text(hooks[k].as_str(), hook_name) {
                return true;
            }
            k = k + 1;
        }
        false
    }

    /// Runs one plugin's hook. Hooks are declared in manifests only, so the
    /// run succeeds and adds nothing.
    fn execute_single_hook(hook: &HookPoint, plugin: &LoadedPlugin, context: &mut PluginContext) -> (r:
        HookResult)
        ensures
            succeeded_for(r, *plugin),
            *final(context) == *old(context),
    {
        HookResult {
            plugin_name: plugin.manifest.name.clone(),
            success: true,
            error: None,
            context_additions: NameMap::new(),
            template_additions: NameMap::new(),
        }
    }

    /// Adds context variables without touching existing ones: a variable
    /// that is already present keeps its value, a new one is added.
    pub fn apply_context_additions(
        original: &NameMap<serde_json::Value>,
        additions: &NameMap<serde_json::Value>,
    ) -> (r: NameMap<serde_json::Value>)
        ensures
            r@ == additions@.union_prefer_right(original@),
    {
        proof {
            use_type_invariant(additions);
        }
        let mut result = original.clone();
        proof {
            use_type_invariant(original);
            original.lemma_view();
            use_type_invariant(&result);
            result.lemma_view();
            assert(result@ =~= original@) by {
                assert forall|k: Seq<char>| result@.dom().contains(k) implies result@[k] == original@[k] by {
                    let i = choose|i: int| 0 <= i < result.key_seq().len() && result.key_seq()[i] == k;
                    assert(result.entry_seq()[i].0 == k);
                    assert(original.entry_seq()[i].0 == k);
                }
            }
            assert(additions.entry_seq().take(0) =~= Seq::<(Seq<char>, serde_json::Value)>::empty());
        }
        let m = additions.len();
        let mut k: usize = 0;
        while k < m
            invariant
                m == additions.entry_seq().len(),
                additions.key_seq().no_duplicates(),
                k <= m,
                result@ == entries_to_map(additions.entry_seq().take(k as int)).union_prefer_right(
                    original@,
                ),
            decreases m - k,
        {
            let key = additions.key_at(k);
            let value = additions.value_at(k);
            let ghost s = additions.entry_seq();
            let ghost prefix = entries_to_map(s.take(k as int));
            proof {
                assert(s.take(k + 1).drop_last() =~= s.take(k as int));
                assert(s.take(k + 1).last() == s[k as int]);
                assert(!prefix.dom().contains(s[k as int].0)) by {
                    assert(super::name_map::entry_keys(s.take(k as int)).no_duplicates()) by {
                        assert forall|a: int, b: int|
                            0 <= a < k && 0 <= b < k && a != b implies super::name_map::entry_keys(
                            s.take(k as int),
                        )[a] != super::name_map::entry_keys(s.take(k as int))[b] by {
                            assert(additions.key_seq()[a] != additions.key_seq()[b]);
                            assert(super::name_map::entry_keys(s.take(k as int))[a] == additions.key_seq()[a]);
                            assert(super::name_map::entry_keys(s.take(k as int))[b] == additions.key_seq()[b]);
                        }
                    }
                    super::name_map::lemma_entries_to_map(s.take(k as int));
                    if prefix.dom().contains(s[k as int].0) {
                        let x = choose|x: int|
                            0 <= x < super::name_map::entry_keys(s.take(k as int)).len()
                                && super::name_map::entry_keys(s.take(k as int))[x] == s[k as int].0;
                        assert(super::name_map::entry_keys(s.take(k as int))[x] == additions.key_seq()[x]);
                        assert(additions.key_seq()[x] == additions.key_seq()[k as int]);
                    }
                }
            }
            if !result.contains_key(key.as_str()) {
                result.insert(key.clone(), value.clone());
                proof {
                    assert(result@ =~= prefix.insert(s[k as int].0, s[k as int].1).union_prefer_right(
                        original@,
                    ));
                }
            } else {
                proof {
                    assert(result@ =~= prefix.insert(s[k as int].0, s[k as int].1).union_prefer_right(
                        original@,
                    ));
                }
            }
            k = k + 1;
        }
        proof {
            assert(additions.entry_seq().take(m as int) =~= additions.entry_seq());
        }
        result
    }

    /// Merges plugin templates into a template set: new paths are added and
    /// existing ones replaced.
    pub fn apply_template_additions(original: &NameMap<String>, additions: &NameMap<String>) -> (r:
        NameMap<String>)
        ensures
            r@ == original@.union_prefer_right(additions@),
    {
        let mut result = original.clone();
        proof {
            use_type_invariant(original);
            original.lemma_view();
            use_type_invariant(&result);
            result.lemma_view();
            assert(result@ =~= original@) by {
                assert forall|k: Seq<char>| result@.dom().contains(k) implies result@[k] == original@[k] by {
                    let i = choose|i: int| 0 <= i < result.key_seq().len() && result.key_seq()[i] == k;
                    assert(result.entry_seq()[i].0 == k);
                    assert(original.entry_seq()[i].0 == k);
                }
            }
            assert(additions.entry_seq().take(0) =~= Seq::<(Seq<char>, String)>::empty());
        }
        let m = additions.len();
        let mut k: usize = 0;
        while k < m
            invariant
                m == additions.entry_seq().len(),
                k <= m,
                result@ == original@.union_prefer_right(
                    entries_to_map(additions.entry_seq().take(k as int)),
                ),
            decreases m - k,
        {
            let key = additions.key_at(k);
            let value = additions.value_at(k);
            let ghost s = additions.entry_seq();
            proof {
                assert(s.take(k + 1).drop_last() =~= s.take(k as int));
                assert(s.take(k + 1).last() == s[k as int]);
            }
            result.insert(key.clone(), value.clone());
            proof {
                assert(result@ =~= original@.union_prefer_right(entries_to_map(s.take(k + 1))));
            }
            k = k + 1;
        }
        proof {
            assert(additions.entry_seq().take(m as int) =~= additions.entry_seq());
        }
        result
    }
}

/// A plugin takes part in a hook point exactly when some entry of its
/// manifest's hook list, wherever it stands in the list, is the hook point's
/// name; the plugins taking part keep their order.
pub proof fn lemma_registered_exact(s: Seq<LoadedPlugin>, hook: HookPoint)
    ensures
        registered(s, hook) == s.filter(
            |p: LoadedPlugin|
                exists|i: int|
                    0 <= i < p.manifest.capabilities.hooks@.len()
                        && (#[trigger] p.manifest.capabilities.hooks@[i])@ == hook_point_name(hook),
        ),
        forall|k: int, i: int|
            #![trigger s[k].manifest.capabilities.hooks@[i]]
            0 <= k < s.len() && 0 <= i < s[k].manifest.capabilities.hooks@.len()
                && s[k].manifest.capabilities.hooks@[i]@ == hook_point_name(hook) ==> registered(
                s,
                hook,
            ).contains(s[k]),
        forall|k: int|
            0 <= k < registered(s, hook).len() ==> s.contains(#[trigger] registered(s, hook)[k])
                && exists|i: int|
                0 <= i < registered(s, hook)[k].manifest.capabilities.hooks@.len()
                    && (#[trigger] registered(s, hook)[k].manifest.capabilities.hooks@[i])@
                    == hook_point_name(hook),
    decreases s.len(),
{
    reveal(Seq::filter);
    let f = |p: LoadedPlugin|
        exists|i: int|
            0 <= i < p.manifest.capabilities.hooks@.len()
                && (#[trigger] p.manifest.capabilities.hooks@[i])@ == hook_point_name(hook);
    if s.len() > 0 {
        lemma_registered_exact(s.drop_last(), hook);
        assert(registers(s.last(), hook) == f(s.last()));
    }
    assert(registered(s, hook) == s.filter(f));
    s.filter_lemma(f);
    assert forall|k: int, i: int|
        #![trigger s[k].manifest.capabilities.hooks@[i]]
        0 <= k < s.len() && 0 <= i < s[k].manifest.capabilities.hooks@.len()
            && s[k].manifest.capabilities.hooks@[i]@ == hook_point_name(hook) implies registered(
        s,
        hook,
    ).contains(s[k]) by {
        assert(f(s[k]));
    }
    assert forall|k: int| 0 <= k < registered(s, hook).len() implies s.contains(
        #[trigger] registered(s, hook)[k],
    ) && exists|i: int|
        0 <= i < registered(s, hook)[k].manifest.capabilities.hooks@.len()
            && (#[trigger] registered(s, hook)[k].manifest.capabilities.hooks@[i])@
            == hook_point_name(hook) by {
        assert(f(s.filter(f)[k]));
    }
}

/// Hook points and their manifest names correspond one to one: a name read
/// back gives the hook point it was written for.
pub proof fn lemma_hook_point_name_injective(a: HookPoint, b: HookPoint)
    ensures
        hook_point_name(a) == hook_point_name(b) ==> a == b,
{
    reveal_strlit("pre_generate");
    reveal_strlit("post_generate");
    reveal_strlit("modify_context");
    reveal_strlit("modify_templates");
    if hook_point_name(a) == hook_point_name(b) && a != b {
        let x = hook_point_name(a);
        let y = hook_point_name(b);
        assert(x.len() == y.len());
        assert(x[1] == y[1]);
        assert(x[7] == y[7]);
    }
}

/// Hooks run in ascending priority order, and every registered plugin runs
/// exactly once.
pub proof fn lemma_priority_order_runs_each_once(s: Seq<LoadedPlugin>, idx: Seq<int>)
    requires
        is_priority_order(s, idx),
    ensures
        forall|a: int, b: int|
            0 <= a < b < idx.len() ==> s[#[trigger] idx[a]].manifest.priority <= s[#[trigger] idx[
                b]].manifest.priority,
        idx.no_duplicates(),
        forall|k: int| 0 <= k < s.len() ==> idx.contains(k),
{
    assert forall|a: int, b: int| 0 <= a < idx.len() && 0 <= b < idx.len() && a != b implies idx[a]
        != idx[b] by {
        if a < b {
            assert(s[idx[a]].manifest.priority < s[idx[b]].manifest.priority || idx[a] < idx[b]);
        } else {
            assert(s[idx[b]].manifest.priority < s[idx[a]].manifest.priority || idx[b] < idx[a]);
        }
    }
    idx.unique_seq_to_set();
    let whole = vstd::set_lib::set_int_range(0, s.len() as int);
    vstd::set_lib::lemma_int_range(0, s.len() as int);
    assert(idx.to_set().subset_of(whole)) by {
        assert forall|k: int| #[trigger] idx.to_set().contains(k) implies whole.contains(k) by {
            let a = choose|a: int| 0 <= a < idx.len() && idx[a] == k;
            assert(0 <= idx[a] < s.len());
        }
    }
    vstd::set_lib::lemma_subset_equality(idx.to_set(), whole);
    assert forall|k: int| 0 <= k < s.len() implies idx.contains(k) by {
        assert(whole.contains(k));
        assert(idx.to_set().contains(k));
    }
}

/// Two priority orders that agree on their first `k` positions agree on all.
proof fn lemma_priority_orders_agree_from(s: Seq<LoadedPlugin>, a: Seq<int>, b: Seq<int>, k: int)
    requires
        is_priority_order(s, a),
        is_priority_order(s, b),
        0 <= k <= a.len(),
        a.take(k) == b.take(k),
    ensures
        a == b,
    decreases a.len() - k,
{
    lemma_priority_order_runs_each_once(s, a);
    lemma_priority_order_runs_each_once(s, b);
    if k == a.len() {
        assert(a =~= a.take(k));
        assert(b =~= b.take(k));
    } else if a[k] == b[k] {
        assert(a.take(k + 1) =~= a.take(k).push(a[k]));
        assert(b.take(k + 1) =~= b.take(k).push(b[k]));
        lemma_priority_orders_agree_from(s, a, b, k + 1);
    } else {
        let x = a[k];
        let y = b[k];
        assert(0 <= y < s.len());
        assert(a.contains(y));
        let p = choose|p: int| 0 <= p < a.len() && a[p] == y;
        if p < k {
            assert(a.take(k)[p] == a[p]);
            assert(b.take(k)[p] == b[p]);
            assert(b[p] == y);
            assert(b.no_duplicates());
        }
        assert(0 <= x < s.len());
        assert(b.contains(x));
        let q = choose|q: int| 0 <= q < b.len() && b[q] == x;
        if q < k {
            assert(a.take(k)[q] == a[q]);
            assert(b.take(k)[q] == b[q]);
            assert(a[q] == x);
            assert(a.no_duplicates());
        }
        assert(a[k] == x && a[p] == y);
        assert(b[k] == y && b[q] == x);
    }
}

/// The priority order of a sequence of plugins is unique, so running hooks
/// and sorting by priority give one definite order.
pub proof fn lemma_priority_order_unique(s: Seq<LoadedPlugin>, a: Seq<int>, b: Seq<int>)
    requires
        is_priority_order(s, a),
        is_priority_order(s, b),
    ensures
        a == b,
{
    assert(a.take(0) =~= b.take(0));
    lemma_priority_orders_agree_from(s, a, b, 0);
}

/// Context additions keep every variable already present, with its value, and add
/// every new one.
pub proof fn lemma_context_additions_keep_existing(
    original: Map<Seq<char>, serde_json::Value>,
    additions: Map<Seq<char>, serde_json::Value>,
)
    ensures
        forall|k: Seq<char>|
            #[trigger] original.dom().contains(k) ==> additions.union_prefer_right(
                original,
            ).dom().contains(k) && additions.union_prefer_right(original)[k] == original[k],
        forall|k: Seq<char>|
            #[trigger] additions.dom().contains(k) ==> additions.union_prefer_right(
                original,
            ).dom().contains(k),
        forall|k: Seq<char>|
            #[trigger] additions.union_prefer_right(original).dom().contains(k) ==> original.dom().contains(k)
                || additions.dom().contains(k),
{
}

/// Template additions win: an added template replaces the one at the same
/// path, and every other template stays.
pub proof fn lemma_template_additions_override(
    original: Map<Seq<char>, String>,
    additions: Map<Seq<char>, String>,
)
    ensures
        forall|k: Seq<char>|
            #[trigger] additions.dom().contains(k) ==> original.union_prefer_right(
                additions,
            ).dom().contains(k) && original.union_prefer_right(additions)[k] == additions[k],
        forall|k: Seq<char>|
            #[trigger] original.dom().contains(k) && !additions.dom().contains(k)
                ==> original.union_prefer_right(additions).dom().contains(k)
                && original.union_prefer_right(additions)[k] == original[k],
        forall|k: Seq<char>|
            #[trigger] original.union_prefer_right(additions).dom().contains(k) ==> original.dom().contains(k)
                || additions.dom().contains(k),
{
}

} // verus!

