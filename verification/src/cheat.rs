//! The cheat page's bookkeeping: the keys settings are stored under, which
//! modules a configuration switches, which key binds it may set, and how the
//! bound keys are listed.

use vstd::prelude::*;

use crate::config::{key_view, keys_view, stable_sort_by_keys, stable_sort_witness, PairKey};
use crate::sniffer::{lowercase, to_lower};
use crate::text::{
    contains_chars, contains_text, push_signed_decimal, same_str, signed_decimal,
    string_from_chars, to_chars,
};

verus! {

/// What the page knows of a cheat module: its id and name, its settings
/// (key and label) and its actions (id and label).
#[derive(Clone, Debug)]
pub struct CheatModuleInfo {
    pub id: String,
    pub name: String,
    pub fields: Vec<(String, String)>,
    pub actions: Vec<(String, String)>,
}

/// The key a module's setting is stored under: the module id, `::`, the
/// setting's key.
pub fn fkey(module_id: &str, key: &str) -> (r: String)
    ensures
        r@ == module_id@ + seq![':', ':'] + key@,
{
    let mut out = to_chars(module_id);
    out.push(':');
    out.push(':');
    let k = to_chars(key);
    for i in 0..k.len()
        invariant
            out@ == module_id@ + seq![':', ':'] + k@.take(i as int),
    {
        out.push(k[i]);
        assert(k@.take(i + 1) =~= k@.take(i as int).push(k@[i as int]));
    }
    assert(k@.take(k@.len() as int) =~= k@);
    string_from_chars(&out)
}

/// The index of the first module with id `id`.
pub open spec fn first_module(ms: Seq<CheatModuleInfo>, id: Seq<char>) -> Option<int> {
    if exists|i: int| 0 <= i < ms.len() && (#[trigger] ms[i]).id@ == id {
        Some(choose|i: int| 0 <= i < ms.len() && ms[i].id@ == id && forall|j: int| 0 <= j < i ==> (#[trigger] ms[j]).id@ != id)
    } else {
        None
    }
}

/// The index of the first item (key and label) with key `key`.
pub open spec fn first_item(items: Seq<(String, String)>, key: Seq<char>) -> Option<int> {
    if exists|i: int| 0 <= i < items.len() && (#[trigger] items[i]).0@ == key {
        Some(choose|i: int| 0 <= i < items.len() && items[i].0@ == key && forall|j: int| 0 <= j < i ==> (#[trigger] items[j]).0@ != key)
    } else {
        None
    }
}

/// The first module with id `id`.
fn find_module(modules: &Vec<CheatModuleInfo>, id: &str) -> (r: Option<usize>)
    ensures
        match r {
            Some(i) => i < modules@.len() && modules@[i as int].id@ == id@ && first_module(
                modules@,
                id@,
            ) == Some(i as int),
            None => first_module(modules@, id@) is None,
        },
{
    for i in 0..modules.len()
        invariant
            forall|j: int| 0 <= j < i ==> (#[trigger] modules@[j]).id@ != id@,
    {
        if same_str(modules[i].id.as_str(), id) {
            proof {
                let k = choose|k: int|
                    0 <= k < modules@.len() && modules@[k].id@ == id@ && forall|j: int|
                        0 <= j < k ==> (#[trigger] modules@[j]).id@ != id@;
                assert(0 <= k < modules@.len() && modules@[k].id@ == id@);
                if k < i {
                } else if k > i {
                    assert(modules@[i as int].id@ == id@);
                }
            }
            return Some(i);
        }
    }
    None
}

/// The first item with key `key`.
fn find_item(items: &Vec<(String, String)>, key: &str) -> (r: Option<usize>)
    ensures
        match r {
            Some(i) => i < items@.len() && items@[i as int].0@ == key@ && first_item(items@, key@)
                == Some(i as int),
            None => first_item(items@, key@) is None,
        },
{
    for i in 0..items.len()
        invariant
            forall|j: int| 0 <= j < i ==> (#[trigger] items@[j]).0@ != key@,
    {
        if same_str(items[i].0.as_str(), key) {
            proof {
                let k = choose|k: int|
                    0 <= k < items@.len() && items@[k].0@ == key@ && forall|j: int|
                        0 <= j < k ==> (#[trigger] items@[j]).0@ != key@;
                assert(0 <= k < items@.len() && items@[k].0@ == key@);
                if k < i {
                } else if k > i {
                    assert(items@[i as int].0@ == key@);
                }
            }
            return Some(i);
        }
    }
    None
}

/// The key that binds a module's on/off switch.
pub open spec fn toggle_key() -> Seq<char> {
    seq!['t', 'o', 'g', 'g', 'l', 'e']
}

/// Whether `key` is the switch key.
fn is_toggle(key: &str) -> (r: bool)
    ensures
        r == (key@ == toggle_key()),
{
    let t = to_chars(key);
    t.len() == 6 && t[0] == 't' && t[1] == 'o' && t[2] == 'g' && t[3] == 'g' && t[4] == 'l' && t[5]
        == 'e' && {
        assert(t@ =~= toggle_key());
        true
    }
}

/// Whether a bind of module `module_id` and key `key` has a target: the
/// first module with that id exists and the key is its switch, one of its
/// settings or one of its actions.
pub open spec fn bind_target_exists(ms: Seq<CheatModuleInfo>, module_id: Seq<char>, key: Seq<char>) -> bool {
    match first_module(ms, module_id) {
        Some(m) => key == toggle_key() || first_item(ms[m].fields@, key) is Some || first_item(
            ms[m].actions@,
            key,
        ) is Some,
        None => false,
    }
}

/// The target of a bind: the module id and key, when the bind has one.
pub fn static_bind_target(modules: &Vec<CheatModuleInfo>, module_id: &str, key: &str) -> (r: Option<(String, String)>)
    ensures
        match r {
            Some(t) => bind_target_exists(modules@, module_id@, key@) && t.0@ == module_id@
                && t.1@ == key@,
            None => !bind_target_exists(modules@, module_id@, key@),
        },
{
    let m = match find_module(modules, module_id) {
        Some(m) => m,
        None => return None,
    };
    let known = is_toggle(key) || find_item(&modules[m].fields, key).is_some() || find_item(
        &modules[m].actions,
        key,
    ).is_some();
    if known {
        Some((modules[m].id.clone(), string_from_chars(&to_chars(key))))
    } else {
        None
    }
}

/// How a bind is shown: the module's name and what the key does (`Toggle`,
/// or the label of the setting or action it names, else the key); the raw
/// module id and key when there is no such module.
pub open spec fn bind_display_spec(ms: Seq<CheatModuleInfo>, module_id: Seq<char>, key: Seq<char>) -> (Seq<char>, Seq<char>) {
    match first_module(ms, module_id) {
        None => (module_id, key),
        Some(m) => (
            ms[m].name@,
            if key == toggle_key() {
                seq!['T', 'o', 'g', 'g', 'l', 'e']
            } else {
                match first_item(ms[m].fields@, key) {
                    Some(f) => ms[m].fields@[f].1@,
                    None => match first_item(ms[m].actions@, key) {
                        Some(a) => ms[m].actions@[a].1@,
                        None => key,
                    },
                }
            },
        ),
    }
}

/// The module name and function shown for a bind.
pub fn bind_display(modules: &Vec<CheatModuleInfo>, module_id: &str, key: &str) -> (r: (String, String))
    ensures
        (r.0@, r.1@) == bind_display_spec(modules@, module_id@, key@),
{
    let m = match find_module(modules, module_id) {
        Some(m) => m,
        None => return (string_from_chars(&to_chars(module_id)), string_from_chars(&to_chars(key))),
    };
    let function = if is_toggle(key) {
        let mut t: Vec<char> = Vec::new();
        t.push('T');
        t.push('o');
        t.push('g');
        t.push('g');
        t.push('l');
        t.push('e');
        assert(t@ =~= seq!['T', 'o', 'g', 'g', 'l', 'e']);
        string_from_chars(&t)
    } else {
        match find_item(&modules[m].fields, key) {
            Some(f) => modules[m].fields[f].1.clone(),
            None => match find_item(&modules[m].actions, key) {
                Some(a) => modules[m].actions[a].1.clone(),
                None => string_from_chars(&to_chars(key)),
            },
        }
    };
    (modules[m].name.clone(), function)
}

/// Whether `enabled` lists the module id `id`.
pub open spec fn lists_id(enabled: Seq<String>, id: Seq<char>) -> bool {
    exists|i: int| 0 <= i < enabled.len() && (#[trigger] enabled[i])@ == id
}

/// Whether `enabled` lists `id`.
fn listed(enabled: &Vec<String>, id: &str) -> (r: bool)
    ensures
        r == lists_id(enabled@, id@),
{
    for i in 0..enabled.len()
        invariant
            forall|j: int| 0 <= j < i ==> (#[trigger] enabled@[j])@ != id@,
    {
        if same_str(enabled[i].as_str(), id) {
            return true;
        }
    }
    false
}

/// The switch a configuration gives module `m` (id and whether it is on
/// now), if it changes it: the module is to be on exactly when `enabled`
/// lists it.
pub open spec fn toggle_of(m: (String, bool), enabled: Seq<String>) -> Option<(Seq<char>, bool)> {
    if m.1 != lists_id(enabled, m.0@) {
        Some((m.0@, lists_id(enabled, m.0@)))
    } else {
        None
    }
}

/// The switches a configuration makes, in module order.
pub open spec fn toggles(ms: Seq<(String, bool)>, enabled: Seq<String>) -> Seq<(Seq<char>, bool)> {
    ms.filter_map(|m: (String, bool)| toggle_of(m, enabled))
}

/// The modules (id and whether each is on now) that a configuration with
/// the enabled modules `enabled` switches, with the state each gets.
pub fn module_toggles(modules: &Vec<(String, bool)>, enabled: &Vec<String>) -> (r: Vec<(String, bool)>)
    ensures
        r@.map_values(|t: (String, bool)| (t.0@, t.1)) == toggles(modules@, enabled@),
{
    let mut out: Vec<(String, bool)> = Vec::new();
    for i in 0..modules.len()
        invariant
            out@.map_values(|t: (String, bool)| (t.0@, t.1)) == toggles(modules@.take(i as int), enabled@),
    {
        let should = listed(enabled, modules[i].0.as_str());
        let ghost before = out@;
        proof {
            assert(modules@.take(i + 1).drop_last() =~= modules@.take(i as int));
        }
        if modules[i].1 != should {
            out.push((modules[i].0.clone(), should));
            assert(out@.map_values(|t: (String, bool)| (t.0@, t.1)) =~= before.map_values(
                |t: (String, bool)| (t.0@, t.1),
            ) + seq![(modules@[i as int].0@, should)]);
        } else {
            assert(out@ == before);
        }
    }
    assert(modules@.take(modules@.len() as int) =~= modules@);
    out
}


/// Whether some module with id `module_id` has the setting or action `key`.
pub open spec fn some_module_has(ms: Seq<CheatModuleInfo>, module_id: Seq<char>, key: Seq<char>) -> bool {
    exists|m: int|
        0 <= m < ms.len() && (#[trigger] ms[m]).id@ == module_id && (first_item(ms[m].fields@, key) is Some
            || first_item(ms[m].actions@, key) is Some)
}

/// Whether a configuration's bind of module `module_id` and key `key` is
/// taken: such a module exists, and the key is the switch or a setting or
/// action of a module with that id.
pub open spec fn keybind_accepted(ms: Seq<CheatModuleInfo>, module_id: Seq<char>, key: Seq<char>) -> bool {
    first_module(ms, module_id) is Some && (key == toggle_key() || some_module_has(ms, module_id, key))
}

/// Whether some module with id `module_id` has the setting or action `key`.
fn module_has(modules: &Vec<CheatModuleInfo>, module_id: &str, key: &str) -> (r: bool)
    ensures
        r == some_module_has(modules@, module_id@, key@),
{
    for i in 0..modules.len()
        invariant
            forall|m: int|
                0 <= m < i ==> !((#[trigger] modules@[m]).id@ == module_id@ && (first_item(
                    modules@[m].fields@,
                    key@,
                ) is Some || first_item(modules@[m].actions@, key@) is Some)),
    {
        if same_str(modules[i].id.as_str(), module_id) && (find_item(&modules[i].fields, key).is_some()
            || find_item(&modules[i].actions, key).is_some()) {
            return true;
        }
    }
    false
}

/// The binds of a configuration that are taken, in order.
pub open spec fn accepted(ms: Seq<CheatModuleInfo>, binds: Seq<(String, String, i32)>) -> Seq<(String, String, i32)> {
    binds.filter(|b: (String, String, i32)| keybind_accepted(ms, b.0@, b.1@))
}

/// The binds (module id, key, key code) of a configuration that are taken.
pub fn accepted_keybinds(modules: &Vec<CheatModuleInfo>, binds: Vec<(String, String, i32)>) -> (r: Vec<(String, String, i32)>)
    ensures
        r@ == accepted(modules@, binds@),
{
    let ghost all = binds@;
    let mut out: Vec<(String, String, i32)> = Vec::new();
    for b in it: binds
        invariant
            it.seq() == all,
            out@ == accepted(modules@, all.take(it.index() as int)),
    {
        assert(all.take(it.index() + 1).drop_last() =~= all.take(it.index() as int));
        reveal(Seq::filter);
        let keep = find_module(modules, b.0.as_str()).is_some() && (is_toggle(b.1.as_str())
            || module_has(modules, b.0.as_str(), b.1.as_str()));
        if keep {
            out.push(b);
        }
    }
    assert(all.take(all.len() as int) =~= all);
    out
}

/// The key code a binding shows: the code bound in this session (`bound`),
/// else the stored setting (`stored`) cut to 32 bits, else 0.
pub fn bind_code(bound: Option<i32>, stored: Option<i64>) -> (r: i32)
    ensures
        r == match bound {
            Some(c) => c,
            None => match stored {
                Some(v) => v as i32,
                None => 0,
            },
        },
{
    match bound {
        Some(c) => c,
        None => match stored {
            Some(v) => v as i32,
            None => 0,
        },
    }
}

/// The position of the option with value `v` among `values`.
pub fn select_index(values: &Vec<i64>, v: i64) -> (r: Option<usize>)
    ensures
        match r {
            Some(i) => i < values@.len() && values@[i as int] == v && forall|j: int|
                0 <= j < i ==> values@[j] != v,
            None => forall|j: int| 0 <= j < values@.len() ==> values@[j] != v,
        },
{
    for i in 0..values.len()
        invariant
            forall|j: int| 0 <= j < i ==> values@[j] != v,
    {
        if values[i] == v {
            return Some(i);
        }
    }
    None
}

/// Whether a choice (label and value) matches the search `query`: its label
/// contains it, both in lower case, or its value's decimal text does.
pub fn option_matches(label: &str, value: i64, query: &str) -> (r: bool)
    ensures
        r == (contains_text(lowercase(label@), lowercase(query@)) || contains_text(
            signed_decimal(value),
            query@,
        )),
{
    let l = to_lower(label);
    let q = to_lower(query);
    if contains_chars(&to_chars(l.as_str()), &to_chars(q.as_str())) {
        return true;
    }
    let mut digits: Vec<char> = Vec::new();
    push_signed_decimal(&mut digits, value);
    assert(digits@ =~= signed_decimal(value));
    contains_chars(&digits, &to_chars(query))
}

/// The sort key of a bind: its module id and key.
pub open spec fn bind_key(b: (String, String, i32)) -> PairKey {
    (b.0@, b.1@)
}

/// The sort keys of binds.
pub open spec fn bind_keys(s: Seq<(String, String, i32)>) -> Seq<PairKey> {
    s.map_values(|b: (String, String, i32)| bind_key(b))
}

/// The binds that set a key (code other than 0).
pub open spec fn set_binds(s: Seq<(String, String, i32)>) -> Seq<(String, String, i32)> {
    s.filter(|b: (String, String, i32)| b.2 != 0)
}

/// The key binds listed on the page: those with a key code other than 0,
/// sorted by module id and key; binds with the same module and key keep
/// their order.
pub fn active_binds(binds: Vec<(String, String, i32)>) -> (r: Vec<(String, String, i32)>)
    ensures
        exists|perm: Seq<int>|
            stable_sort_witness(r@, bind_keys(r@), set_binds(binds@), bind_keys(set_binds(binds@)), perm),
{
    let ghost all = binds@;
    let mut items: Vec<(String, String, i32)> = Vec::new();
    for b in it: binds
        invariant
            it.seq() == all,
            items@ == set_binds(all.take(it.index() as int)),
    {
        assert(all.take(it.index() + 1).drop_last() =~= all.take(it.index() as int));
        reveal(Seq::filter);
        if b.2 != 0 {
            items.push(b);
        }
    }
    assert(all.take(all.len() as int) =~= all);
    let mut keys: Vec<(Vec<char>, Vec<char>)> = Vec::new();
    for i in 0..items.len()
        invariant
            keys@.len() == i,
            forall|k: int| 0 <= k < i ==> #[trigger] key_view(keys@[k]) == bind_key(items@[k]),
    {
        keys.push((to_chars(items[i].0.as_str()), to_chars(items[i].1.as_str())));
    }
    let ghost inp = items@;
    let ghost ki = keys_view(keys@);
    assert(ki =~= bind_keys(inp));
    stable_sort_by_keys(&mut items, &mut keys);
    let ghost perm = choose|perm: Seq<int>| stable_sort_witness(items@, keys_view(keys@), inp, ki, perm);
    proof {
        assert forall|k: int| 0 <= k < items@.len() implies #[trigger] keys_view(keys@)[k]
            == bind_key(items@[k]) by {
            assert(items@[k] == inp[perm[k]]);
        }
        assert(keys_view(keys@) =~= bind_keys(items@));
        assert(stable_sort_witness(items@, bind_keys(items@), inp, bind_keys(inp), perm));
    }
    items
}

/// An item that `f` maps to a value gives that value to `s.filter_map(f)`.
proof fn lemma_filter_map_has<A, B>(s: Seq<A>, f: spec_fn(A) -> Option<B>, i: int)
    requires
        0 <= i < s.len(),
        f(s[i]) is Some,
    ensures
        s.filter_map(f).contains(f(s[i])->Some_0),
    decreases s.len(),
{
    let rest = s.drop_last();
    if i == s.len() - 1 {
        let out = s.filter_map(f);
        assert(out[out.len() - 1] == f(s[i])->Some_0);
    } else {
        lemma_filter_map_has(rest, f, i);
        assert(rest[i] == s[i]);
        let k = choose|k: int| 0 <= k < rest.filter_map(f).len() && rest.filter_map(f)[k] == f(s[i])->Some_0;
        let out = s.filter_map(f);
        assert(out[k] == rest.filter_map(f)[k]);
    }
}

/// A configuration switches each module whose state now differs from whether
/// the configuration lists it among the enabled modules, to the listed
/// state, and switches nothing else: each switch names such a module and
/// gives it that state.
pub proof fn lemma_toggles_switch_differing(ms: Seq<(String, bool)>, enabled: Seq<String>)
    ensures
        forall|i: int|
            0 <= i < ms.len() && (#[trigger] ms[i]).1 != (exists|j: int| 0 <= j < enabled.len() && (#[trigger] enabled[j])@ == ms[i].0@)
                ==> toggles(ms, enabled).contains((ms[i].0@, !ms[i].1)),
        forall|t: (Seq<char>, bool)|
            #[trigger] toggles(ms, enabled).contains(t) ==> exists|i: int| {
                &&& 0 <= i < ms.len()
                &&& (#[trigger] ms[i]).0@ == t.0
                &&& ms[i].1 != t.1
                &&& t.1 == exists|j: int| 0 <= j < enabled.len() && (#[trigger] enabled[j])@ == ms[i].0@
            },
{
    let f = |m: (String, bool)| toggle_of(m, enabled);
    assert forall|i: int|
        0 <= i < ms.len() && (#[trigger] ms[i]).1 != (exists|j: int| 0 <= j < enabled.len() && (#[trigger] enabled[j])@ == ms[i].0@)
            implies toggles(ms, enabled).contains((ms[i].0@, !ms[i].1)) by {
        assert(f(ms[i]) == Some((ms[i].0@, !ms[i].1)));
        lemma_filter_map_has(ms, f, i);
    }
    assert forall|t: (Seq<char>, bool)| #[trigger] toggles(ms, enabled).contains(t) implies exists|i: int| {
        &&& 0 <= i < ms.len()
        &&& (#[trigger] ms[i]).0@ == t.0
        &&& ms[i].1 != t.1
        &&& t.1 == exists|j: int| 0 <= j < enabled.len() && (#[trigger] enabled[j])@ == ms[i].0@
    } by {
        ms.lemma_filter_map_contains(f, t);
        let m = choose|m: (String, bool)| #[trigger] ms.contains(m) && f(m) == Some(t);
        let i = choose|i: int| 0 <= i < ms.len() && ms[i] == m;
        assert(ms[i].0@ == t.0);
    }
}

/// A bind of a configuration is taken exactly when a module with its module
/// id exists and its key is the switch key `toggle`, or the key of a setting
/// or an action of a module with that id; every bind taken is one of the
/// configuration's binds.
pub proof fn lemma_accepted_binds(ms: Seq<CheatModuleInfo>, binds: Seq<(String, String, i32)>, i: int)
    requires
        0 <= i < binds.len(),
    ensures
        accepted(ms, binds).contains(binds[i]) <==> {
            &&& exists|m: int| 0 <= m < ms.len() && (#[trigger] ms[m]).id@ == binds[i].0@
            &&& {
                ||| binds[i].1@ == seq!['t', 'o', 'g', 'g', 'l', 'e']
                ||| exists|m: int| {
                    &&& 0 <= m < ms.len()
                    &&& (#[trigger] ms[m]).id@ == binds[i].0@
                    &&& {
                        ||| exists|f: int| 0 <= f < ms[m].fields@.len() && (#[trigger] ms[m].fields@[f]).0@ == binds[i].1@
                        ||| exists|a: int| 0 <= a < ms[m].actions@.len() && (#[trigger] ms[m].actions@[a]).0@ == binds[i].1@
                    }
                }
            }
        },
        forall|k: int| 0 <= k < accepted(ms, binds).len() ==> #[trigger] binds.contains(accepted(ms, binds)[k]),
{
    let p = |b: (String, String, i32)| keybind_accepted(ms, b.0@, b.1@);
    assert(accepted(ms, binds) == binds.filter(p));
    if accepted(ms, binds).contains(binds[i]) {
        let k = choose|k: int| 0 <= k < binds.filter(p).len() && binds.filter(p)[k] == binds[i];
        binds.lemma_filter_pred(p, k);
    }
    if p(binds[i]) {
        binds.lemma_filter_contains(p, i);
    }
    assert forall|k: int| 0 <= k < accepted(ms, binds).len() implies #[trigger] binds.contains(accepted(ms, binds)[k]) by {
        binds.lemma_filter_contains_rev(p, binds.filter(p)[k]);
    }
}

/// A bind of a configuration is among those the page lists exactly when its
/// key code is not 0, and none with key code 0 is listed.
pub proof fn lemma_set_binds_members(binds: Seq<(String, String, i32)>, i: int)
    requires
        0 <= i < binds.len(),
    ensures
        set_binds(binds).contains(binds[i]) <==> binds[i].2 != 0,
        forall|k: int| 0 <= k < set_binds(binds).len() ==> (#[trigger] set_binds(binds)[k]).2 != 0,
{
    let p = |b: (String, String, i32)| b.2 != 0;
    assert(set_binds(binds) == binds.filter(p));
    if set_binds(binds).contains(binds[i]) {
        let k = choose|k: int| 0 <= k < binds.filter(p).len() && binds.filter(p)[k] == binds[i];
        binds.lemma_filter_pred(p, k);
    }
    if p(binds[i]) {
        binds.lemma_filter_contains(p, i);
    }
    assert forall|k: int| 0 <= k < set_binds(binds).len() implies (#[trigger] set_binds(binds)[k]).2 != 0 by {
        binds.lemma_filter_pred(p, k);
    }
}

} // verus!
