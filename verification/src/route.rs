//! Route entries: the full per-host configuration bundle.
//!
//! A route entry combines a backend set with the host's header rewrite
//! rules, its recognized plugin configuration, its path-match patterns and
//! the TLS self-signed-on-failure policy flag. Entries are immutable once
//! constructed except for the health state inside the backend set; a
//! membership change replaces the whole entry.

use vstd::prelude::*;

verus! {

use crate::pairs_model;
use crate::strs_model;
use crate::backend::BackendModel;
use crate::backend::BackendSet;

/// Mathematical value of one attached plugin: its name and its configuration
/// text, carried through untouched.
pub ghost struct PluginModel {
    pub name: Seq<char>,
    pub config: Seq<char>,
}

/// One plugin declared for a route.
pub struct Plugin {
    pub name: String,
    pub config: String,
}

impl View for Plugin {
    type V = PluginModel;

    open spec fn view(&self) -> PluginModel {
        PluginModel { name: self.name@, config: self.config@ }
    }
}

impl Clone for Plugin {
    fn clone(&self) -> (r: Self)
        ensures
            r@ == self@,
    {
        Plugin { name: self.name.clone(), config: self.config.clone() }
    }
}

pub open spec fn plugins_model(v: Seq<Plugin>) -> Seq<PluginModel> {
    v.map_values(|p: Plugin| p@)
}

/// The recognized plugin names: configuration for any other name is dropped
/// without error, a deliberate forward-compatibility policy.
pub open spec fn plugin_recognized(name: Seq<char>) -> bool {
    name == "oauth2"@ || name == "request_id"@ || name == "basic_auth"@
}

/// Whether this plugin name is one of the recognized set.
pub fn plugin_name_recognized(name: &String) -> (r: bool)
    ensures
        r == plugin_recognized(name@),
{
    let a = "oauth2".to_owned();
    let b = "request_id".to_owned();
    let c = "basic_auth".to_owned();
    *name == a || *name == b || *name == c
}

/// First index in `ps` whose plugin is named `name`, or -1.
pub open spec fn plugin_index(ps: Seq<PluginModel>, name: Seq<char>) -> int
    decreases ps.len(),
{
    if ps.len() == 0 {
        -1
    } else if ps[0].name == name {
        0
    } else {
        let r = plugin_index(ps.drop_first(), name);
        if r < 0 {
            -1
        } else {
            r + 1
        }
    }
}

pub proof fn lemma_plugin_index(ps: Seq<PluginModel>, name: Seq<char>)
    ensures
        -1 <= plugin_index(ps, name) < ps.len(),
        plugin_index(ps, name) >= 0 ==> ps[plugin_index(ps, name)].name == name,
        plugin_index(ps, name) == -1 ==> forall|i: int|
            0 <= i < ps.len() ==> (#[trigger] ps[i]).name != name,
        forall|i: int|
            0 <= i < plugin_index(ps, name) ==> (#[trigger] ps[i]).name != name,
    decreases ps.len(),
{
    if ps.len() == 0 {
    } else if ps[0].name == name {
    } else {
        lemma_plugin_index(ps.drop_first(), name);
        assert forall|i: int| 1 <= i < ps.len() implies ps.drop_first()[i - 1] == ps[i] by {}
    }
}

/// The mapping after recording plugin `p`: an entry already keyed by its name
/// is replaced, otherwise the entry is appended.
pub open spec fn upsert_plugin(ps: Seq<PluginModel>, p: PluginModel) -> Seq<PluginModel> {
    let i = plugin_index(ps, p.name);
    if i >= 0 {
        ps.update(i, p)
    } else {
        ps.push(p)
    }
}

/// The plugin mapping a declared plugin list produces: declarations with
/// recognized names are recorded keyed by name, a later declaration for the
/// same name replacing the earlier one; unrecognized names are dropped.
pub open spec fn filter_plugins(input: Seq<PluginModel>) -> Seq<PluginModel>
    decreases input.len(),
{
    if input.len() == 0 {
        Seq::empty()
    } else {
        let prev = filter_plugins(input.drop_last());
        let p = input.last();
        if plugin_recognized(p.name) {
            upsert_plugin(prev, p)
        } else {
            prev
        }
    }
}

/// Every recorded plugin has a recognized name and was declared.
pub proof fn lemma_filter_plugins_sound(input: Seq<PluginModel>)
    ensures
        forall|i: int|
            0 <= i < filter_plugins(input).len() ==> plugin_recognized(
                (#[trigger] filter_plugins(input)[i]).name,
            ) && exists|j: int|
                0 <= j < input.len() && (#[trigger] input[j]).name == filter_plugins(input)[i].name,
    decreases input.len(),
{
    if input.len() == 0 {
    } else {
        let t = input.drop_last();
        let prev = filter_plugins(t);
        let p = input.last();
        lemma_filter_plugins_sound(t);
        lemma_plugin_index(prev, p.name);
        assert(forall|j: int| 0 <= j < t.len() ==> t[j] == input[j]);
        let cur = filter_plugins(input);
        if plugin_recognized(p.name) {
            let k = plugin_index(prev, p.name);
            assert forall|i: int| 0 <= i < cur.len() implies plugin_recognized(
                (#[trigger] cur[i]).name,
            ) && exists|j: int| 0 <= j < input.len() && (#[trigger] input[j]).name
                == cur[i].name by {
                if (k >= 0 && i == k) || (k < 0 && i == cur.len() - 1) {
                    assert(cur[i] == p);
                    assert(input[input.len() - 1].name == cur[i].name);
                } else {
                    assert(cur[i] == prev[i]);
                    let j = choose|j: int| 0 <= j < t.len() && (#[trigger] t[j]).name
                        == prev[i].name;
                    assert(input[j].name == cur[i].name);
                }
            }
        }
    }
}

/// Every declared plugin with a recognized name is recorded.
pub proof fn lemma_filter_plugins_complete(input: Seq<PluginModel>)
    ensures
        forall|j: int|
            0 <= j < input.len() && plugin_recognized((#[trigger] input[j]).name) ==> exists|i: int|
                0 <= i < filter_plugins(input).len() && (#[trigger] filter_plugins(input)[i]).name
                    == input[j].name,
    decreases input.len(),
{
    if input.len() == 0 {
    } else {
        let t = input.drop_last();
        let prev = filter_plugins(t);
        let p = input.last();
        lemma_filter_plugins_complete(t);
        lemma_plugin_index(prev, p.name);
        assert(forall|j: int| 0 <= j < t.len() ==> t[j] == input[j]);
        let cur = filter_plugins(input);
        let k = plugin_index(prev, p.name);
        assert forall|j: int|
            0 <= j < input.len() && plugin_recognized((#[trigger] input[j]).name) implies exists|
            i: int,
        | 0 <= i < cur.len() && (#[trigger] cur[i]).name == input[j].name by {
            if j == input.len() - 1 {
                if k >= 0 {
                    assert(cur[k].name == p.name);
                } else {
                    assert(cur[cur.len() - 1].name == p.name);
                }
            } else {
                let i = choose|i: int| 0 <= i < prev.len() && (#[trigger] prev[i]).name
                    == t[j].name;
                if plugin_recognized(p.name) && k >= 0 && i == k {
                    assert(prev[i].name == p.name);
                    assert(cur[i].name == p.name);
                    assert(cur[i].name == input[j].name);
                } else {
                    assert(cur[i] == prev[i]);
                    assert(cur[i].name == input[j].name);
                }
            }
        }
    }
}

/// A name is recorded at most once: the mapping is keyed by name.
pub proof fn lemma_filter_plugins_unique(input: Seq<PluginModel>)
    ensures
        forall|i: int, j: int|
            0 <= i < j < filter_plugins(input).len() ==> (#[trigger] filter_plugins(
                input,
            )[i]).name != (#[trigger] filter_plugins(input)[j]).name,
    decreases input.len(),
{
    if input.len() == 0 {
    } else {
        let t = input.drop_last();
        let prev = filter_plugins(t);
        let p = input.last();
        lemma_filter_plugins_unique(t);
        lemma_plugin_index(prev, p.name);
        let cur = filter_plugins(input);
        if plugin_recognized(p.name) {
            let k = plugin_index(prev, p.name);
            assert forall|i: int, j: int| 0 <= i < j < cur.len() implies (#[trigger] cur[i]).name
                != (#[trigger] cur[j]).name by {
                if k >= 0 {
                    assert(cur == prev.update(k, p));
                    assert(prev[k].name == p.name);
                    assert(cur[i] == if i == k {
                        p
                    } else {
                        prev[i]
                    });
                    assert(cur[j] == if j == k {
                        p
                    } else {
                        prev[j]
                    });
                } else {
                    if j == cur.len() - 1 {
                        assert(cur[j] == p);
                        assert(cur[i] == prev[i]);
                        if prev[i].name == p.name {
                            assert(plugin_index(prev, p.name) >= 0);
                        }
                    }
                }
            }
        }
    }
}

/// Mathematical value of one route entry.
pub ghost struct EntryModel {
    pub host: Seq<char>,
    pub backends: Seq<BackendModel>,
    pub cursor: int,
    pub header_add: Seq<(Seq<char>, Seq<char>)>,
    pub header_remove: Seq<Seq<char>>,
    pub plugins: Seq<PluginModel>,
    pub path_patterns: Seq<Seq<char>>,
    pub self_signed: bool,
}

/// The full per-host configuration bundle.
pub struct RouteEntry {
    pub host: String,
    pub backends: BackendSet,
    pub header_add: Vec<(String, String)>,
    pub header_remove: Vec<String>,
    pub plugins: Vec<Plugin>,
    pub path_patterns: Vec<String>,
    pub self_signed: bool,
}

impl View for RouteEntry {
    type V = EntryModel;

    open spec fn view(&self) -> EntryModel {
        EntryModel {
            host: self.host@,
            backends: self.backends@.backends,
            cursor: self.backends@.cursor,
            header_add: pairs_model(self.header_add@),
            header_remove: strs_model(self.header_remove@),
            plugins: plugins_model(self.plugins@),
            path_patterns: strs_model(self.path_patterns@),
            self_signed: self.self_signed,
        }
    }
}

impl RouteEntry {
    /// Well-formed: the backend set is.
    pub open spec fn wf(self) -> bool {
        self.backends.wf()
    }
}

/// Copies a plugin list.
pub fn clone_plugins(v: &Vec<Plugin>) -> (r: Vec<Plugin>)
    ensures
        plugins_model(r@) == plugins_model(v@),
{
    let mut r: Vec<Plugin> = Vec::new();
    let mut i: usize = 0;
    while i < v.len()
        invariant
            i <= v@.len(),
            r@.len() == i,
            forall|k: int| 0 <= k < i ==> (#[trigger] r@[k])@ == v@[k]@,
        decreases v@.len() - i,
    {
        r.push(v[i].clone());
        i += 1;
    }
    proof {
        assert(plugins_model(r@) =~= plugins_model(v@));
    }
    r
}

impl Clone for RouteEntry {
    fn clone(&self) -> (r: Self)
        ensures
            r@ == self@,
    {
        RouteEntry {
            host: self.host.clone(),
            backends: self.backends.clone(),
            header_add: crate::clone_pairs(&self.header_add),
            header_remove: crate::clone_strings(&self.header_remove),
            plugins: clone_plugins(&self.plugins),
            path_patterns: crate::clone_strings(&self.path_patterns),
            self_signed: self.self_signed,
        }
    }
}

/// Builds the plugin mapping from a declared plugin list.
#[verifier::loop_isolation(false)]
pub fn filter_declared_plugins(input: &Vec<Plugin>) -> (r: Vec<Plugin>)
    ensures
        plugins_model(r@) == filter_plugins(plugins_model(input@)),
{
    let mut out: Vec<Plugin> = Vec::new();
    let mut i: usize = 0;
    while i < input.len()
        invariant
            i <= input.len(),
            plugins_model(out@) == filter_plugins(plugins_model(input@.take(i as int))),
        decreases input.len() - i,
    {
        let ghost t = plugins_model(input@.take(i as int));
        let ghost t2 = plugins_model(input@.take(i + 1));
        proof {
            assert(t2 =~= t.push(input@[i as int]@));
            assert(t2.drop_last() =~= t);
            lemma_plugin_index(plugins_model(out@), input@[i as int]@.name);
        }
        let p = &input[i];
        if plugin_name_recognized(&p.name) {
            match find_plugin(&out, &p.name) {
                Some(j) => {
                    let ghost before = out@;
                    out[j] = p.clone();
                    proof {
                        assert(plugins_model(out@) =~= plugins_model(before).update(
                            j as int,
                            input@[i as int]@,
                        ));
                        assert(plugins_model(out@) =~= upsert_plugin(
                            filter_plugins(t),
                            input@[i as int]@,
                        ));
                        assert(plugins_model(out@) =~= filter_plugins(t2));
                    }
                },
                None => {
                    out.push(p.clone());
                    proof {
                        assert(plugins_model(out@) =~= upsert_plugin(
                            filter_plugins(t),
                            input@[i as int]@,
                        ));
                        assert(plugins_model(out@) =~= filter_plugins(t2));
                    }
                },
            }
        } else {
            proof {
                assert(filter_plugins(t2) == filter_plugins(t));
            }
        }
        i += 1;
    }
    proof {
        assert(input@.take(input@.len() as int) =~= input@);
    }
    out
}

/// First index in `v` whose plugin is named `name`.
fn find_plugin(v: &Vec<Plugin>, name: &String) -> (r: Option<usize>)
    ensures
        match r {
            Some(i) => i < v@.len() && plugin_index(plugins_model(v@), name@) == i as int,
            None => plugin_index(plugins_model(v@), name@) == -1,
        },
{
    let ghost m = plugins_model(v@);
    let mut i: usize = 0;
    while i < v.len()
        invariant
            i <= v.len(),
            m == plugins_model(v@),
            forall|k: int| 0 <= k < i ==> (#[trigger] m[k]).name != name@,
        decreases v.len() - i,
    {
        if v[i].name == *name {
            proof {
                lemma_plugin_index_first(m, name@, i as int);
            }
            return Some(i);
        }
        i += 1;
    }
    proof {
        lemma_plugin_index(m, name@);
        if plugin_index(m, name@) >= 0 {
            assert(m[plugin_index(m, name@)].name == name@);
        }
    }
    None
}

proof fn lemma_plugin_index_first(ps: Seq<PluginModel>, name: Seq<char>, i: int)
    requires
        0 <= i < ps.len(),
        ps[i].name == name,
        forall|k: int| 0 <= k < i ==> (#[trigger] ps[k]).name != name,
    ensures
        plugin_index(ps, name) == i,
    decreases i,
{
    if i == 0 {
    } else {
        assert(ps[0].name != name);
        assert(ps.drop_first()[i - 1] == ps[i]);
        assert(forall|k: int| 0 <= k < i - 1 ==> #[trigger] ps.drop_first()[k] == ps[k + 1]);
        lemma_plugin_index_first(ps.drop_first(), name, i - 1);
    }
}

} // verus!
