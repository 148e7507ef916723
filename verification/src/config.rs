//! Saved configurations: their contents, the normal form they are stored and
//! compared in, and the rules for their names.

use vstd::prelude::*;

use crate::text::{
    compare_text, copy_range, is_whitespace, lemma_text_lt_irreflexive, lemma_text_lt_transitive,
    lemma_text_lt_trichotomy, string_from_chars, text_lt, to_chars, trim_chars, trim_seq,
    TextOrder,
};

verus! {

// ---------------------------------------------------------------------------
// Sorting
// ---------------------------------------------------------------------------

/// The texts of a list of strings.
pub open spec fn texts(v: Seq<String>) -> Seq<Seq<char>> {
    v.map_values(|s: String| s@)
}

/// Each text is below the next: sorted, with no text twice.
pub open spec fn strictly_sorted(s: Seq<Seq<char>>) -> bool {
    forall|i: int, j: int| 0 <= i < j < s.len() ==> text_lt(#[trigger] s[i], #[trigger] s[j])
}

/// `a` and `b` hold the same texts (each as often as it likes).
pub open spec fn same_texts(a: Seq<Seq<char>>, b: Seq<Seq<char>>) -> bool {
    forall|x: Seq<char>| a.contains(x) <==> b.contains(x)
}

/// What a sequence with one more element contains.
pub proof fn lemma_push_contains<A>(s: Seq<A>, v: A, x: A)
    ensures
        s.push(v).contains(x) <==> (s.contains(x) || x == v),
{
    if s.push(v).contains(x) {
        let k = choose|k: int| 0 <= k < s.push(v).len() && s.push(v)[k] == x;
        if k < s.len() {
            assert(s[k] == x);
        }
    }
    if s.contains(x) {
        let k = choose|k: int| 0 <= k < s.len() && s[k] == x;
        assert(s.push(v)[k] == x);
    }
    if x == v {
        assert(s.push(v)[s.len() as int] == x);
    }
}

/// `names` sorted with duplicates removed (`sort` then `dedup`).
pub fn sort_dedup(names: &Vec<String>) -> (out: Vec<String>)
    ensures
        strictly_sorted(texts(out@)),
        same_texts(texts(out@), texts(names@)),
{
    let mut out: Vec<String> = Vec::new();
    let mut keys: Vec<Vec<char>> = Vec::new();
    let n = names.len();
    for i in 0..n
        invariant
            n == names.len(),
            out@.len() == keys@.len(),
            forall|k: int| 0 <= k < keys@.len() ==> (#[trigger] keys@[k])@ == out@[k]@,
            strictly_sorted(texts(out@)),
            forall|x: Seq<char>|
                texts(out@).contains(x) <==> texts(names@.take(i as int)).contains(x),
    {
        let name = names[i].clone();
        let c = to_chars(name.as_str());
        let ghost t = texts(out@);
        let mut p: usize = 0;
        while p < keys.len() && compare_text(&keys[p], &c) == TextOrder::Less
            invariant
                p <= keys@.len(),
                out@.len() == keys@.len(),
                t == texts(out@),
                forall|k: int| 0 <= k < keys@.len() ==> (#[trigger] keys@[k])@ == out@[k]@,
                forall|k: int| 0 <= k < p ==> text_lt(#[trigger] t[k], c@),
            decreases keys@.len() - p,
        {
            p += 1;
        }
        let present = p < keys.len() && compare_text(&keys[p], &c) == TextOrder::Equal;
        proof {
            assert(texts(names@.take(i + 1)) =~= texts(names@.take(i as int)).push(c@));
        }
        if !present {
            proof {
                if p < keys@.len() {
                    lemma_text_lt_trichotomy(t[p as int], c@);
                }
            }
            out.insert(p, name);
            keys.insert(p, c);
            proof {
                let t2 = texts(out@);
                assert(t2 =~= t.insert(p as int, c@));
                assert forall|a: int, b: int| 0 <= a < b < t2.len() implies text_lt(
                    #[trigger] t2[a],
                    #[trigger] t2[b],
                ) by {
                    if b == p {
                    } else if a == p {
                        if b > p + 1 {
                            lemma_text_lt_transitive(c@, t[p as int], t[b - 1]);
                        }
                    } else if a < p && b > p {
                        assert(text_lt(t[a], c@));
                        if b - 1 == p {
                            lemma_text_lt_transitive(t[a], c@, t[p as int]);
                        } else {
                            lemma_text_lt_transitive(c@, t[p as int], t[b - 1]);
                            lemma_text_lt_transitive(t[a], c@, t[b - 1]);
                        }
                    } else if a > p {
                        assert(t2[a] == t[a - 1] && t2[b] == t[b - 1]);
                    } else {
                        assert(t2[a] == t[a] && t2[b] == t[b]);
                    }
                }
                assert forall|x: Seq<char>| t2.contains(x) <==> t.push(c@).contains(x) by {
                    if t2.contains(x) {
                        let k = choose|k: int| 0 <= k < t2.len() && t2[k] == x;
                        if k < p {
                            assert(t.push(c@)[k] == x);
                        } else if k > p {
                            assert(t.push(c@)[k - 1] == x);
                        } else {
                            assert(t.push(c@)[t.len() as int] == x);
                        }
                    }
                    if t.push(c@).contains(x) {
                        let k = choose|k: int| 0 <= k < t.push(c@).len() && t.push(c@)[k] == x;
                        if k == t.len() {
                            assert(t2[p as int] == x);
                        } else if k < p {
                            assert(t2[k] == x);
                        } else {
                            assert(t2[k + 1] == x);
                        }
                    }
                }
            }
        } else {
            proof {
                assert forall|x: Seq<char>| t.contains(x) <==> t.push(c@).contains(x) by {
                    if t.push(c@).contains(x) {
                        let k = choose|k: int| 0 <= k < t.push(c@).len() && t.push(c@)[k] == x;
                        if k == t.len() {
                            assert(t[p as int] == x);
                        } else {
                            assert(t[k] == x);
                        }
                    }
                    if t.contains(x) {
                        let k = choose|k: int| 0 <= k < t.len() && t[k] == x;
                        assert(t.push(c@)[k] == x);
                    }
                }
            }
        }
        proof {
            assert forall|x: Seq<char>| texts(out@).contains(x) <==> texts(
                names@.take(i + 1),
            ).contains(x) by {
                lemma_push_contains(t, c@, x);
                lemma_push_contains(texts(names@.take(i as int)), c@, x);
            }
        }
    }
    assert(names@.take(n as int) == names@);
    out
}

/// A sort key made of two texts, compared first by the first text.
pub type PairKey = (Seq<char>, Seq<char>);

/// The order of `(String, String)` tuples.
pub open spec fn pair_lt(a: PairKey, b: PairKey) -> bool {
    text_lt(a.0, b.0) || (a.0 == b.0 && text_lt(a.1, b.1))
}

/// Pair keys are equal or ordered one way, not both.
pub proof fn lemma_pair_lt_trichotomy(a: PairKey, b: PairKey)
    ensures
        pair_lt(a, b) || a == b || pair_lt(b, a),
        !(pair_lt(a, b) && pair_lt(b, a)),
{
    lemma_text_lt_trichotomy(a.0, b.0);
    lemma_text_lt_trichotomy(a.1, b.1);
    lemma_text_lt_irreflexive(a.0);
}

/// The order of pair keys is transitive.
pub proof fn lemma_pair_lt_transitive(a: PairKey, b: PairKey, c: PairKey)
    requires
        pair_lt(a, b),
        pair_lt(b, c),
    ensures
        pair_lt(a, c),
{
    if text_lt(a.0, b.0) && text_lt(b.0, c.0) {
        lemma_text_lt_transitive(a.0, b.0, c.0);
    } else if text_lt(a.1, b.1) && text_lt(b.1, c.1) && a.0 == b.0 && b.0 == c.0 {
        lemma_text_lt_transitive(a.1, b.1, c.1);
    }
}

/// `perm` lists `0..n` in some order.
pub open spec fn is_permutation(perm: Seq<int>, n: int) -> bool {
    &&& perm.len() == n
    &&& forall|k: int| 0 <= k < n ==> 0 <= #[trigger] perm[k] < n
    &&& forall|a: int, b: int| 0 <= a < b < n ==> #[trigger] perm[a] != #[trigger] perm[b]
}

/// Keys in order, equal keys in the order of their original positions.
pub open spec fn stable_order(ko: Seq<PairKey>, perm: Seq<int>) -> bool {
    &&& forall|a: int, b: int| 0 <= a < b < ko.len() ==> !pair_lt(#[trigger] ko[b], #[trigger] ko[a])
    &&& forall|a: int, b: int|
        0 <= a < b < ko.len() && ko[a] == ko[b] ==> #[trigger] perm[a] < #[trigger] perm[b]
}

/// `out` (with keys `ko`) is `inp` (with keys `ki`) reordered by `perm`: the
/// result of a stable sort by key.
pub open spec fn stable_sort_witness<T>(
    out: Seq<T>,
    ko: Seq<PairKey>,
    inp: Seq<T>,
    ki: Seq<PairKey>,
    perm: Seq<int>,
) -> bool {
    &&& is_permutation(perm, inp.len() as int)
    &&& out.len() == inp.len()
    &&& ko.len() == out.len()
    &&& ki.len() == inp.len()
    &&& forall|k: int| 0 <= k < out.len() ==> out[k] == inp[#[trigger] perm[k]] && ko[k] == ki[perm[k]]
    &&& stable_order(ko, perm)
}

/// Inserting a key after every key not above it, and before the first key
/// above it, keeps a stable order when the new key comes from the latest
/// position.
proof fn lemma_stable_insert(ko: Seq<PairKey>, perm: Seq<int>, p: int, kx: PairKey)
    requires
        ko.len() == perm.len(),
        0 <= p <= ko.len(),
        stable_order(ko, perm),
        forall|k: int| 0 <= k < perm.len() ==> 0 <= #[trigger] perm[k] < perm.len(),
        forall|a: int, b: int| 0 <= a < b < perm.len() ==> #[trigger] perm[a] != #[trigger] perm[b],
        forall|a: int| 0 <= a < p ==> !pair_lt(kx, #[trigger] ko[a]),
        p < ko.len() ==> pair_lt(kx, ko[p]),
    ensures
        stable_order(ko.insert(p, kx), perm.insert(p, perm.len() as int)),
        forall|k: int|
            0 <= k < perm.len() + 1 ==> 0 <= #[trigger] perm.insert(p, perm.len() as int)[k]
                < perm.len() + 1,
        forall|a: int, b: int|
            0 <= a < b < perm.len() + 1 ==> #[trigger] perm.insert(p, perm.len() as int)[a]
                != #[trigger] perm.insert(p, perm.len() as int)[b],
{
    let n = perm.len() as int;
    let ko2 = ko.insert(p, kx);
    let perm2 = perm.insert(p, n);
    assert forall|a: int, b: int| 0 <= a < b < ko2.len() implies !pair_lt(
        #[trigger] ko2[b],
        #[trigger] ko2[a],
    ) by {
        if a < p && b == p {
        } else if a < p && b > p {
            assert(ko2[b] == ko[b - 1]);
            if b - 1 == p {
                lemma_pair_lt_trichotomy(kx, ko[a]);
                lemma_pair_lt_trichotomy(ko[a], ko[p]);
                if pair_lt(ko[b - 1], ko[a]) {
                    if kx == ko[a] {
                    } else {
                        lemma_pair_lt_transitive(kx, ko[a], ko[p]);
                        lemma_pair_lt_transitive(ko[a], kx, ko[p]);
                    }
                }
            } else {
                assert(!pair_lt(ko[b - 1], ko[a]));
            }
        } else if a == p {
            assert(ko2[b] == ko[b - 1]);
            if b - 1 > p {
                lemma_pair_lt_trichotomy(ko[p], ko[b - 1]);
                if ko[p] != ko[b - 1] {
                    lemma_pair_lt_transitive(kx, ko[p], ko[b - 1]);
                }
            }
            lemma_pair_lt_trichotomy(kx, ko[b - 1]);
        } else if a > p {
            assert(ko2[a] == ko[a - 1] && ko2[b] == ko[b - 1]);
        } else {
            assert(ko2[a] == ko[a] && ko2[b] == ko[b]);
        }
    }
    assert forall|a: int, b: int| 0 <= a < b < ko2.len() && ko2[a] == ko2[b] implies #[trigger] perm2[a]
        < #[trigger] perm2[b] by {
        if b == p {
            assert(perm2[a] == perm[a]);
        } else if a == p {
            assert(ko2[b] == ko[b - 1]);
            lemma_pair_lt_trichotomy(kx, ko[b - 1]);
            if b - 1 > p {
                lemma_pair_lt_trichotomy(ko[p], ko[b - 1]);
                if ko[p] != ko[b - 1] {
                    lemma_pair_lt_transitive(kx, ko[p], ko[b - 1]);
                }
            }
            lemma_pair_lt_irreflexive_pair(kx);
        } else if a < p && b > p {
            assert(perm2[a] == perm[a] && perm2[b] == perm[b - 1]);
        } else if a > p {
            assert(perm2[a] == perm[a - 1] && perm2[b] == perm[b - 1]);
        } else {
            assert(perm2[a] == perm[a] && perm2[b] == perm[b]);
        }
    }
    assert forall|k: int| 0 <= k < n + 1 implies 0 <= #[trigger] perm2[k] < n + 1 by {
        if k < p {
            assert(perm2[k] == perm[k]);
        } else if k > p {
            assert(perm2[k] == perm[k - 1]);
        }
    }
    assert forall|a: int, b: int| 0 <= a < b < n + 1 implies #[trigger] perm2[a] != #[trigger] perm2[b] by {
        if a == p {
            assert(perm2[b] == perm[b - 1]);
        } else if b == p {
            assert(perm2[a] == perm[a]);
        } else if a < p && b > p {
            assert(perm2[a] == perm[a] && perm2[b] == perm[b - 1]);
        } else if a > p {
            assert(perm2[a] == perm[a - 1] && perm2[b] == perm[b - 1]);
        } else {
            assert(perm2[a] == perm[a] && perm2[b] == perm[b]);
        }
    }
}

/// No pair key is below itself.
pub proof fn lemma_pair_lt_irreflexive_pair(a: PairKey)
    ensures
        !pair_lt(a, a),
{
    lemma_text_lt_irreflexive(a.0);
    lemma_text_lt_irreflexive(a.1);
}

/// The texts of a sort key.
pub open spec fn key_view(k: (Vec<char>, Vec<char>)) -> PairKey {
    (k.0@, k.1@)
}

/// The views of a list of sort keys.
pub open spec fn keys_view(ks: Seq<(Vec<char>, Vec<char>)>) -> Seq<PairKey> {
    ks.map_values(|k: (Vec<char>, Vec<char>)| key_view(k))
}

/// Whether `a` is below `b`.
fn pair_key_lt(a: &(Vec<char>, Vec<char>), b: &(Vec<char>, Vec<char>)) -> (r: bool)
    ensures
        r == pair_lt(key_view(*a), key_view(*b)),
{
    match compare_text(&a.0, &b.0) {
        TextOrder::Less => true,
        TextOrder::Greater => false,
        TextOrder::Equal => compare_text(&a.1, &b.1) == TextOrder::Less,
    }
}

/// Sorts `items`, whose sort keys are `keys`, by key; items with equal keys
/// keep their order (as `sort_by` does).
pub fn stable_sort_by_keys<T>(items: &mut Vec<T>, keys: &mut Vec<(Vec<char>, Vec<char>)>)
    requires
        old(items)@.len() == old(keys)@.len(),
    ensures
        exists|perm: Seq<int>|
            stable_sort_witness(
                final(items)@,
                keys_view(final(keys)@),
                old(items)@,
                keys_view(old(keys)@),
                perm,
            ),
{
    let n = items.len();
    let ghost inp = items@;
    let ghost ki = keys_view(keys@);
    let ghost mut perm: Seq<int> = Seq::empty();
    for i in 0..n
        invariant
            n == inp.len(),
            items@.len() == n,
            keys@.len() == n,
            ki.len() == n,
            items@.skip(i as int) == inp.skip(i as int),
            keys_view(keys@).skip(i as int) == ki.skip(i as int),
            stable_sort_witness(
                items@.take(i as int),
                keys_view(keys@).take(i as int),
                inp.take(i as int),
                ki.take(i as int),
                perm,
            ),
    {
        let ghost ko = keys_view(keys@).take(i as int);
        let ghost pre = items@.take(i as int);
        let ghost kx = keys_view(keys@)[i as int];
        assert(kx == ki[i as int]) by {
            assert(keys_view(keys@).skip(i as int)[0] == ki.skip(i as int)[0]);
        }
        assert(items@[i as int] == inp[i as int]) by {
            assert(items@.skip(i as int)[0] == inp.skip(i as int)[0]);
        }
        let mut p: usize = 0;
        while p < i && !pair_key_lt(&keys[i], &keys[p])
            invariant
                p <= i < n,
                keys@.len() == n,
                ko == keys_view(keys@).take(i as int),
                kx == keys_view(keys@)[i as int],
                forall|a: int| 0 <= a < p ==> !pair_lt(kx, #[trigger] ko[a]),
            decreases i - p,
        {
            assert(ko[p as int] == key_view(keys@[p as int]));
            p += 1;
        }
        proof {
            if p < i {
                assert(ko[p as int] == key_view(keys@[p as int]));
            }
            lemma_stable_insert(ko, perm, p as int, kx);
        }
        let ghost old_items = items@;
        let ghost old_keys = keys_view(keys@);
        let x = items.remove(i);
        let kxv = keys.remove(i);
        items.insert(p, x);
        keys.insert(p, kxv);
        proof {
            let perm2 = perm.insert(p as int, i as int);
            assert(items@ =~= old_items.remove(i as int).insert(p as int, old_items[i as int]));
            assert(keys_view(keys@) =~= old_keys.remove(i as int).insert(p as int, old_keys[i as int]));
            assert(items@.take(i + 1) =~= pre.insert(p as int, inp[i as int]));
            assert(keys_view(keys@).take(i + 1) =~= ko.insert(p as int, kx));
            assert(inp.take(i + 1) =~= inp.take(i as int).push(inp[i as int]));
            assert(ki.take(i + 1) =~= ki.take(i as int).push(ki[i as int]));
            assert(items@.skip(i + 1) =~= old_items.skip(i + 1));
            assert(old_items.skip(i + 1) =~= inp.skip(i + 1)) by {
                assert forall|k: int| 0 <= k < n - i - 1 implies #[trigger] old_items.skip(i + 1)[k]
                    == inp.skip(i + 1)[k] by {
                    assert(old_items.skip(i as int)[k + 1] == inp.skip(i as int)[k + 1]);
                }
            }
            assert(keys_view(keys@).skip(i + 1) =~= ki.skip(i + 1)) by {
                assert forall|k: int| 0 <= k < n - i - 1 implies #[trigger] keys_view(keys@).skip(
                    i + 1,
                )[k] == ki.skip(i + 1)[k] by {
                    assert(old_keys.skip(i as int)[k + 1] == ki.skip(i as int)[k + 1]);
                }
            }
            let out2 = items@.take(i + 1);
            let ko2 = keys_view(keys@).take(i + 1);
            assert forall|k: int| 0 <= k < out2.len() implies out2[k] == inp.take(i + 1)[#[trigger] perm2[k]]
                && ko2[k] == ki.take(i + 1)[perm2[k]] by {
                if k < p {
                    assert(perm2[k] == perm[k]);
                    assert(out2[k] == pre[k]);
                    assert(ko2[k] == ko[k]);
                } else if k > p {
                    assert(perm2[k] == perm[k - 1]);
                    assert(out2[k] == pre[k - 1]);
                    assert(ko2[k] == ko[k - 1]);
                } else {
                    assert(perm2[k] == i);
                }
            }
            perm = perm2;
        }
    }
    proof {
        assert(items@.take(n as int) == items@);
        assert(keys_view(keys@).take(n as int) == keys_view(keys@));
        assert(inp.take(n as int) == inp);
        assert(ki.take(n as int) == ki);
    }
}

// ---------------------------------------------------------------------------
// Configurations
// ---------------------------------------------------------------------------

/// The format version written into new configurations.
pub const CONFIG_VERSION: u32 = 1;

/// The directory configurations are kept in.
pub const CONFIG_DIR_NAME: &'static str = "Config";

/// A key bound to a cheat module's toggle, field or action.
#[derive(Clone, Debug, PartialEq, Eq)]
pub struct KeybindEntry {
    pub module_id: String,
    pub key: String,
    pub key_code: i32,
}

/// A saved setting of a cheat module; `value` is its JSON text.
#[derive(Clone, Debug, PartialEq, Eq)]
pub struct CheatValueEntry {
    pub module_id: String,
    pub key: String,
    pub value: String,
}

/// A saved configuration.
#[derive(Clone, Debug)]
pub struct AppConfig {
    pub version: u32,
    pub created_at: u64,
    pub filtered_message_names: Vec<String>,
    pub hooked_message_names: Vec<String>,
    pub enabled_cheats: Vec<String>,
    pub keybinds: Vec<KeybindEntry>,
    pub cheat_values: Vec<CheatValueEntry>,
    pub dumper_enabled: bool,
}

/// Why a configuration could not be stored or read.
#[derive(Debug)]
pub enum ConfigStoreError {
    Io(std::io::Error),
    Json(serde_json::Error),
    InvalidName,
    AlreadyExists,
    NotFound,
}

#[verifier::external_type_specification]
#[verifier::external_body]
pub struct ExIoError(std::io::Error);

#[verifier::external_type_specification]
#[verifier::external_body]
pub struct ExJsonError(serde_json::Error);

/// The sort key of a key binding: module, then key.
pub open spec fn keybind_key(e: KeybindEntry) -> PairKey {
    (e.module_id@, e.key@)
}

/// The sort key of a saved setting: module, then key.
pub open spec fn cheat_value_key(e: CheatValueEntry) -> PairKey {
    (e.module_id@, e.key@)
}

/// The sort keys of key bindings.
pub open spec fn keybind_keys(s: Seq<KeybindEntry>) -> Seq<PairKey> {
    s.map_values(|e: KeybindEntry| keybind_key(e))
}

/// The sort keys of saved settings.
pub open spec fn cheat_value_keys(s: Seq<CheatValueEntry>) -> Seq<PairKey> {
    s.map_values(|e: CheatValueEntry| cheat_value_key(e))
}

/// `out` is `inp` stably sorted by module and key.
pub open spec fn keybinds_sorted_from(out: Seq<KeybindEntry>, inp: Seq<KeybindEntry>) -> bool {
    exists|perm: Seq<int>|
        #[trigger] stable_sort_witness(
            out,
            keybind_keys(out),
            inp,
            keybind_keys(inp),
            perm,
        )
}

/// `out` is `inp` stably sorted by module and key.
pub open spec fn cheat_values_sorted_from(out: Seq<CheatValueEntry>, inp: Seq<CheatValueEntry>) -> bool {
    exists|perm: Seq<int>|
        #[trigger] stable_sort_witness(
            out,
            cheat_value_keys(out),
            inp,
            cheat_value_keys(inp),
            perm,
        )
}

/// Key bindings stably sorted by module and key.
pub fn sort_keybinds(entries: Vec<KeybindEntry>) -> (out: Vec<KeybindEntry>)
    ensures
        keybinds_sorted_from(out@, entries@),
{
    let mut items = entries;
    let mut keys: Vec<(Vec<char>, Vec<char>)> = Vec::new();
    for i in 0..items.len()
        invariant
            keys@.len() == i,
            forall|k: int| 0 <= k < i ==> #[trigger] key_view(keys@[k]) == keybind_key(items@[k]),
    {
        keys.push((to_chars(items[i].module_id.as_str()), to_chars(items[i].key.as_str())));
    }
    let ghost inp = items@;
    let ghost ki = keys_view(keys@);
    assert(ki =~= keybind_keys(inp));
    stable_sort_by_keys(&mut items, &mut keys);
    proof {
        let perm = choose|perm: Seq<int>|
            stable_sort_witness(items@, keys_view(keys@), inp, ki, perm);
        assert forall|k: int| 0 <= k < items@.len() implies #[trigger] keys_view(keys@)[k]
            == keybind_key(items@[k]) by {
            assert(items@[k] == inp[perm[k]]);
        }
        assert(keys_view(keys@) =~= keybind_keys(items@));
        assert(stable_sort_witness(
            items@,
            keybind_keys(items@),
            inp,
            keybind_keys(inp),
            perm,
        ));
    }
    items
}

/// Saved settings stably sorted by module and key.
pub fn sort_cheat_values(entries: Vec<CheatValueEntry>) -> (out: Vec<CheatValueEntry>)
    ensures
        cheat_values_sorted_from(out@, entries@),
{
    let mut items = entries;
    let mut keys: Vec<(Vec<char>, Vec<char>)> = Vec::new();
    for i in 0..items.len()
        invariant
            keys@.len() == i,
            forall|k: int| 0 <= k < i ==> #[trigger] key_view(keys@[k]) == cheat_value_key(items@[k]),
    {
        keys.push((to_chars(items[i].module_id.as_str()), to_chars(items[i].key.as_str())));
    }
    let ghost inp = items@;
    let ghost ki = keys_view(keys@);
    assert(ki =~= cheat_value_keys(inp));
    stable_sort_by_keys(&mut items, &mut keys);
    proof {
        let perm = choose|perm: Seq<int>|
            stable_sort_witness(items@, keys_view(keys@), inp, ki, perm);
        assert forall|k: int| 0 <= k < items@.len() implies #[trigger] keys_view(keys@)[k]
            == cheat_value_key(items@[k]) by {
            assert(items@[k] == inp[perm[k]]);
        }
        assert(keys_view(keys@) =~= cheat_value_keys(items@));
        assert(stable_sort_witness(
            items@,
            cheat_value_keys(items@),
            inp,
            cheat_value_keys(inp),
            perm,
        ));
    }
    items
}

/// The content of a key binding.
pub open spec fn keybind_view(e: KeybindEntry) -> (Seq<char>, Seq<char>, i32) {
    (e.module_id@, e.key@, e.key_code)
}

/// The content of a saved setting.
pub open spec fn cheat_value_view(e: CheatValueEntry) -> (Seq<char>, Seq<char>, Seq<char>) {
    (e.module_id@, e.key@, e.value@)
}

/// `out` is `inp` in normal form: each name list sorted without duplicates,
/// key bindings and settings stably sorted by module and key, everything else
/// unchanged.
pub open spec fn normal_form_of(out: AppConfig, inp: AppConfig) -> bool {
    &&& out.version == inp.version
    &&& out.created_at == inp.created_at
    &&& out.dumper_enabled == inp.dumper_enabled
    &&& strictly_sorted(texts(out.filtered_message_names@))
    &&& same_texts(texts(out.filtered_message_names@), texts(inp.filtered_message_names@))
    &&& strictly_sorted(texts(out.hooked_message_names@))
    &&& same_texts(texts(out.hooked_message_names@), texts(inp.hooked_message_names@))
    &&& strictly_sorted(texts(out.enabled_cheats@))
    &&& same_texts(texts(out.enabled_cheats@), texts(inp.enabled_cheats@))
    &&& keybinds_sorted_from(out.keybinds@, inp.keybinds@)
    &&& cheat_values_sorted_from(out.cheat_values@, inp.cheat_values@)
}

/// Two configurations select the same messages, cheats, key bindings,
/// settings and dumper state (their version and creation time aside).
pub open spec fn config_equivalent(a: AppConfig, b: AppConfig) -> bool {
    &&& texts(a.filtered_message_names@) == texts(b.filtered_message_names@)
    &&& texts(a.hooked_message_names@) == texts(b.hooked_message_names@)
    &&& texts(a.enabled_cheats@) == texts(b.enabled_cheats@)
    &&& a.keybinds@.map_values(|e: KeybindEntry| keybind_view(e)) == b.keybinds@.map_values(
        |e: KeybindEntry| keybind_view(e),
    )
    &&& a.cheat_values@.map_values(|e: CheatValueEntry| cheat_value_view(e))
        == b.cheat_values@.map_values(|e: CheatValueEntry| cheat_value_view(e))
    &&& a.dumper_enabled == b.dumper_enabled
}

/// Whether two lists of strings are equal.
fn strings_equal(a: &Vec<String>, b: &Vec<String>) -> (r: bool)
    ensures
        r == (texts(a@) == texts(b@)),
{
    if a.len() != b.len() {
        assert(texts(a@).len() != texts(b@).len());
        return false;
    }
    for i in 0..a.len()
        invariant
            a@.len() == b@.len(),
            forall|k: int| 0 <= k < i ==> (#[trigger] a@[k])@ == b@[k]@,
    {
        if a[i] != b[i] {
            assert(texts(a@)[i as int] != texts(b@)[i as int]);
            return false;
        }
    }
    assert(texts(a@) =~= texts(b@));
    true
}

/// Whether two lists of key bindings are equal.
fn keybinds_equal(a: &Vec<KeybindEntry>, b: &Vec<KeybindEntry>) -> (r: bool)
    ensures
        r == (a@.map_values(|e: KeybindEntry| keybind_view(e)) == b@.map_values(
            |e: KeybindEntry| keybind_view(e),
        )),
{
    let ghost va = a@.map_values(|e: KeybindEntry| keybind_view(e));
    let ghost vb = b@.map_values(|e: KeybindEntry| keybind_view(e));
    if a.len() != b.len() {
        assert(va.len() != vb.len());
        return false;
    }
    for i in 0..a.len()
        invariant
            a@.len() == b@.len(),
            va == a@.map_values(|e: KeybindEntry| keybind_view(e)),
            vb == b@.map_values(|e: KeybindEntry| keybind_view(e)),
            forall|k: int| 0 <= k < i ==> #[trigger] va[k] == vb[k],
    {
        if a[i].module_id != b[i].module_id || a[i].key != b[i].key || a[i].key_code != b[i].key_code {
            assert(va[i as int] != vb[i as int]);
            return false;
        }
    }
    assert(va =~= vb);
    true
}

/// Whether two lists of saved settings are equal.
fn cheat_values_equal(a: &Vec<CheatValueEntry>, b: &Vec<CheatValueEntry>) -> (r: bool)
    ensures
        r == (a@.map_values(|e: CheatValueEntry| cheat_value_view(e)) == b@.map_values(
            |e: CheatValueEntry| cheat_value_view(e),
        )),
{
    let ghost va = a@.map_values(|e: CheatValueEntry| cheat_value_view(e));
    let ghost vb = b@.map_values(|e: CheatValueEntry| cheat_value_view(e));
    if a.len() != b.len() {
        assert(va.len() != vb.len());
        return false;
    }
    for i in 0..a.len()
        invariant
            a@.len() == b@.len(),
            va == a@.map_values(|e: CheatValueEntry| cheat_value_view(e)),
            vb == b@.map_values(|e: CheatValueEntry| cheat_value_view(e)),
            forall|k: int| 0 <= k < i ==> #[trigger] va[k] == vb[k],
    {
        if a[i].module_id != b[i].module_id || a[i].key != b[i].key || a[i].value != b[i].value {
            assert(va[i as int] != vb[i as int]);
            return false;
        }
    }
    assert(va =~= vb);
    true
}

/// The seconds since the Unix epoch on the system clock (0 before it).
/// Trusted: `SystemTime::now`; nothing is claimed of the value, which is the
/// machine's time.
#[verifier::external_body]
fn now_seconds() -> u64 {
    std::time::SystemTime::now().duration_since(std::time::UNIX_EPOCH).map_or(0, |d| d.as_secs())
}

impl AppConfig {
    /// A configuration of the given selections in normal form, stamped with
    /// the current time.
    pub fn new(
        filtered_message_names: Vec<String>,
        hooked_message_names: Vec<String>,
        enabled_cheats: Vec<String>,
        keybinds: Vec<(String, String, i32)>,
        cheat_values: Vec<CheatValueEntry>,
        dumper_enabled: bool,
    ) -> (config: Self)
        ensures
            config.version == CONFIG_VERSION,
            config.dumper_enabled == dumper_enabled,
            strictly_sorted(texts(config.filtered_message_names@)),
            same_texts(texts(config.filtered_message_names@), texts(filtered_message_names@)),
            strictly_sorted(texts(config.hooked_message_names@)),
            same_texts(texts(config.hooked_message_names@), texts(hooked_message_names@)),
            strictly_sorted(texts(config.enabled_cheats@)),
            same_texts(texts(config.enabled_cheats@), texts(enabled_cheats@)),
            keybinds_sorted_from(
                config.keybinds@,
                keybinds@.map_values(
                    |t: (String, String, i32)| KeybindEntry { module_id: t.0, key: t.1, key_code: t.2 },
                ),
            ),
            cheat_values_sorted_from(config.cheat_values@, cheat_values@),
    {
        let filtered = sort_dedup(&filtered_message_names);
        let hooked = sort_dedup(&hooked_message_names);
        let enabled = sort_dedup(&enabled_cheats);
        let mut entries: Vec<KeybindEntry> = Vec::new();
        let mut rest = keybinds;
        let ghost all = rest@;
        let mut i: usize = 0;
        let n = rest.len();
        while i < n
            invariant
                n == all.len(),
                rest@ == all.skip(i as int),
                entries@.len() == i,
                i <= n,
                forall|k: int| 0 <= k < i ==> #[trigger] entries@[k] == (KeybindEntry {
                    module_id: all[k].0,
                    key: all[k].1,
                    key_code: all[k].2,
                }),
            decreases n - i,
        {
            let (module_id, key, key_code) = rest.remove(0);
            assert(all.skip(i as int)[0] == all[i as int]);
            assert(all.skip(i as int).remove(0) =~= all.skip(i + 1));
            entries.push(KeybindEntry { module_id, key, key_code });
            i += 1;
        }
        assert(entries@ =~= all.map_values(
            |t: (String, String, i32)| KeybindEntry { module_id: t.0, key: t.1, key_code: t.2 },
        ));
        AppConfig {
            version: CONFIG_VERSION,
            created_at: now_seconds(),
            filtered_message_names: filtered,
            hooked_message_names: hooked,
            enabled_cheats: enabled,
            keybinds: sort_keybinds(entries),
            cheat_values: sort_cheat_values(cheat_values),
            dumper_enabled,
        }
    }

    /// This configuration in normal form.
    pub fn normalized(self) -> (out: Self)
        ensures
            normal_form_of(out, self),
    {
        let filtered = sort_dedup(&self.filtered_message_names);
        let hooked = sort_dedup(&self.hooked_message_names);
        let enabled = sort_dedup(&self.enabled_cheats);
        AppConfig {
            version: self.version,
            created_at: self.created_at,
            filtered_message_names: filtered,
            hooked_message_names: hooked,
            enabled_cheats: enabled,
            keybinds: sort_keybinds(self.keybinds),
            cheat_values: sort_cheat_values(self.cheat_values),
            dumper_enabled: self.dumper_enabled,
        }
    }

    /// Whether `self` and `other` make the same selections.
    pub fn equivalent(&self, other: &Self) -> (r: bool)
        ensures
            r == config_equivalent(*self, *other),
    {
        strings_equal(&self.filtered_message_names, &other.filtered_message_names)
            && strings_equal(&self.hooked_message_names, &other.hooked_message_names)
            && strings_equal(&self.enabled_cheats, &other.enabled_cheats) && keybinds_equal(
            &self.keybinds,
            &other.keybinds,
        ) && cheat_values_equal(&self.cheat_values, &other.cheat_values) && self.dumper_enabled
            == other.dumper_enabled
    }
}

/// One tick of the auto-save: nothing when no configuration is loaded or
/// when `current` makes the same selections as the last saved configuration;
/// else `current` is to be saved under the loaded name `active`, keeping the
/// creation time of the last save where there was one.
pub fn auto_save_plan(active: &Option<String>, current: AppConfig, last_saved: &Option<AppConfig>) -> (r: Option<(String, AppConfig)>)
    ensures
        match *active {
            None => r is None,
            Some(name) => match *last_saved {
                Some(last) => if config_equivalent(last, current) {
                    r is None
                } else {
                    r matches Some(plan) && plan.0@ == name@ && plan.1.created_at == last.created_at
                        && plan.1.version == current.version
                        && plan.1.filtered_message_names == current.filtered_message_names
                        && plan.1.hooked_message_names == current.hooked_message_names
                        && plan.1.enabled_cheats == current.enabled_cheats
                        && plan.1.keybinds == current.keybinds
                        && plan.1.cheat_values == current.cheat_values
                        && plan.1.dumper_enabled == current.dumper_enabled
                },
                None => r matches Some(plan) && plan.0@ == name@ && plan.1 == current,
            },
        },
{
    let name = match active {
        Some(name) => name.clone(),
        None => return None,
    };
    let mut config = current;
    match last_saved {
        Some(last) => {
            if last.equivalent(&config) {
                return None;
            }
            config.created_at = last.created_at;
        },
        None => {},
    }
    Some((name, config))
}

/// An increasing map from the positions `0..n` into `0..m` needs `n <= m`,
/// and is the identity when `n == m`.
proof fn lemma_increasing_positions(f: Seq<int>, n: int, m: int)
    requires
        f.len() == n,
        0 <= n,
        0 <= m,
        forall|i: int| 0 <= i < n ==> 0 <= #[trigger] f[i] < m,
        forall|i: int, j: int| 0 <= i < j < n ==> #[trigger] f[i] < #[trigger] f[j],
    ensures
        n <= m,
        n == m ==> forall|i: int| 0 <= i < n ==> #[trigger] f[i] == i,
{
    assert forall|i: int| 0 <= i < n implies #[trigger] f[i] >= i by {
        lemma_increasing_from_start(f, n, i);
    }
    if n > 0 {
        assert(f[n - 1] >= n - 1);
    }
    if n == m {
        assert forall|i: int| 0 <= i < n implies #[trigger] f[i] == i by {
            lemma_increasing_from_end(f, n, i);
        }
    }
}

/// An increasing map of positions never maps a position below itself.
proof fn lemma_increasing_from_start(f: Seq<int>, n: int, i: int)
    requires
        f.len() == n,
        0 <= i < n,
        forall|k: int| 0 <= k < n ==> 0 <= #[trigger] f[k],
        forall|a: int, b: int| 0 <= a < b < n ==> #[trigger] f[a] < #[trigger] f[b],
    ensures
        f[i] >= i,
    decreases i,
{
    if i > 0 {
        lemma_increasing_from_start(f, n, i - 1);
        assert(f[i - 1] < f[i]);
    }
}

/// An increasing map of `0..n` into `0..n` never maps a position above
/// itself.
proof fn lemma_increasing_from_end(f: Seq<int>, n: int, i: int)
    requires
        f.len() == n,
        0 <= i < n,
        forall|k: int| 0 <= k < n ==> #[trigger] f[k] < n,
        forall|a: int, b: int| 0 <= a < b < n ==> #[trigger] f[a] < #[trigger] f[b],
    ensures
        f[i] <= i,
    decreases n - i,
{
    if i < n - 1 {
        lemma_increasing_from_end(f, n, i + 1);
        assert(f[i] < f[i + 1]);
    }
}

/// Two strictly sorted lists holding the same texts are the same list.
pub proof fn lemma_strictly_sorted_unique(a: Seq<Seq<char>>, b: Seq<Seq<char>>)
    requires
        strictly_sorted(a),
        strictly_sorted(b),
        same_texts(a, b),
    ensures
        a == b,
{
    let fa = Seq::new(a.len(), |i: int| choose|j: int| 0 <= j < b.len() && b[j] == a[i]);
    let fb = Seq::new(b.len(), |j: int| choose|i: int| 0 <= i < a.len() && a[i] == b[j]);
    assert forall|i: int| 0 <= i < a.len() implies 0 <= #[trigger] fa[i] < b.len() && b[fa[i]] == a[i] by {
        assert(a.contains(a[i]));
        assert(b.contains(a[i]));
    }
    assert forall|j: int| 0 <= j < b.len() implies 0 <= #[trigger] fb[j] < a.len() && a[fb[j]] == b[j] by {
        assert(b.contains(b[j]));
        assert(a.contains(b[j]));
    }
    assert forall|i: int, k: int| 0 <= i < k < a.len() implies #[trigger] fa[i] < #[trigger] fa[k] by {
        assert(text_lt(a[i], a[k]));
        lemma_text_lt_trichotomy(b[fa[i]], b[fa[k]]);
        lemma_text_lt_irreflexive(a[i]);
        if fa[k] < fa[i] {
            assert(text_lt(b[fa[k]], b[fa[i]]));
        }
    }
    assert forall|j: int, k: int| 0 <= j < k < b.len() implies #[trigger] fb[j] < #[trigger] fb[k] by {
        assert(text_lt(b[j], b[k]));
        lemma_text_lt_trichotomy(a[fb[j]], a[fb[k]]);
        lemma_text_lt_irreflexive(b[j]);
        if fb[k] < fb[j] {
            assert(text_lt(a[fb[k]], a[fb[j]]));
        }
    }
    lemma_increasing_positions(fa, a.len() as int, b.len() as int);
    lemma_increasing_positions(fb, b.len() as int, a.len() as int);
    assert forall|i: int| 0 <= i < a.len() implies a[i] == b[i] by {
        assert(fa[i] == i);
    }
    assert(a =~= b);
}

/// Keys in order: none below one before it.
pub open spec fn keys_in_order(k: Seq<PairKey>) -> bool {
    forall|a: int, b: int| 0 <= a < b < k.len() ==> !pair_lt(#[trigger] k[b], #[trigger] k[a])
}

/// A stable sort of a list already in key order leaves it as it is.
pub proof fn lemma_stable_sort_of_sorted<T>(
    out: Seq<T>,
    ko: Seq<PairKey>,
    inp: Seq<T>,
    ki: Seq<PairKey>,
    perm: Seq<int>,
)
    requires
        stable_sort_witness(out, ko, inp, ki, perm),
        keys_in_order(ki),
    ensures
        out == inp,
        ko == ki,
{
    let n = inp.len() as int;
    assert forall|a: int, b: int| 0 <= a < b < n implies #[trigger] perm[a] < #[trigger] perm[b] by {
        assert(ko[a] == ki[perm[a]]);
        assert(ko[b] == ki[perm[b]]);
        if ko[a] != ko[b] {
            lemma_pair_lt_trichotomy(ko[a], ko[b]);
            assert(!pair_lt(ko[b], ko[a]));
            assert(pair_lt(ko[a], ko[b]));
            if perm[b] < perm[a] {
                assert(!pair_lt(ki[perm[a]], ki[perm[b]]));
            }
        }
    }
    lemma_increasing_positions(perm, n, n);
    assert forall|k: int| #![trigger out[k]] #![trigger ko[k]] 0 <= k < n implies out[k] == inp[k] && ko[k] == ki[k] by {
        assert(perm[k] == k);
        assert(out[k] == inp[perm[k]] && ko[k] == ki[perm[k]]);
    }
    assert(out =~= inp);
    assert(ko =~= ki);
}

/// The keys of a stable sort's result are in order.
proof fn lemma_sorted_keys_in_order<T>(
    out: Seq<T>,
    ko: Seq<PairKey>,
    inp: Seq<T>,
    ki: Seq<PairKey>,
    perm: Seq<int>,
)
    requires
        stable_sort_witness(out, ko, inp, ki, perm),
    ensures
        keys_in_order(ko),
{
}

/// Normalizing a configuration twice gives what normalizing it once gives:
/// the second pass changes no selection, key binding, setting, version or
/// creation time.
pub proof fn lemma_normalized_idempotent(config: AppConfig, once: AppConfig, twice: AppConfig)
    requires
        normal_form_of(once, config),
        normal_form_of(twice, once),
    ensures
        config_equivalent(twice, once),
        twice.keybinds@ == once.keybinds@,
        twice.cheat_values@ == once.cheat_values@,
        twice.version == once.version,
        twice.created_at == once.created_at,
{
    lemma_strictly_sorted_unique(texts(twice.filtered_message_names@), texts(once.filtered_message_names@));
    lemma_strictly_sorted_unique(texts(twice.hooked_message_names@), texts(once.hooked_message_names@));
    lemma_strictly_sorted_unique(texts(twice.enabled_cheats@), texts(once.enabled_cheats@));
    let p1 = choose|perm: Seq<int>|
        #[trigger] stable_sort_witness(
            once.keybinds@,
            keybind_keys(once.keybinds@),
            config.keybinds@,
            keybind_keys(config.keybinds@),
            perm,
        );
    lemma_sorted_keys_in_order(
        once.keybinds@,
        keybind_keys(once.keybinds@),
        config.keybinds@,
        keybind_keys(config.keybinds@),
        p1,
    );
    let p2 = choose|perm: Seq<int>|
        #[trigger] stable_sort_witness(
            twice.keybinds@,
            keybind_keys(twice.keybinds@),
            once.keybinds@,
            keybind_keys(once.keybinds@),
            perm,
        );
    lemma_stable_sort_of_sorted(
        twice.keybinds@,
        keybind_keys(twice.keybinds@),
        once.keybinds@,
        keybind_keys(once.keybinds@),
        p2,
    );
    let q1 = choose|perm: Seq<int>|
        #[trigger] stable_sort_witness(
            once.cheat_values@,
            cheat_value_keys(once.cheat_values@),
            config.cheat_values@,
            cheat_value_keys(config.cheat_values@),
            perm,
        );
    lemma_sorted_keys_in_order(
        once.cheat_values@,
        cheat_value_keys(once.cheat_values@),
        config.cheat_values@,
        cheat_value_keys(config.cheat_values@),
        q1,
    );
    let q2 = choose|perm: Seq<int>|
        #[trigger] stable_sort_witness(
            twice.cheat_values@,
            cheat_value_keys(twice.cheat_values@),
            once.cheat_values@,
            cheat_value_keys(once.cheat_values@),
            perm,
        );
    lemma_stable_sort_of_sorted(
        twice.cheat_values@,
        cheat_value_keys(twice.cheat_values@),
        once.cheat_values@,
        cheat_value_keys(once.cheat_values@),
        q2,
    );
}

/// Two lists of strings have the same texts exactly when they are equally
/// long and agree position by position.
proof fn lemma_texts_equal(a: Seq<String>, b: Seq<String>)
    ensures
        texts(a) == texts(b) <==> (a.len() == b.len() && forall|i: int| 0 <= i < a.len() ==> #[trigger] a[i]@ == b[i]@),
{
    if texts(a) == texts(b) {
        assert(texts(a).len() == a.len() && texts(b).len() == b.len());
        assert forall|i: int| 0 <= i < a.len() implies #[trigger] a[i]@ == b[i]@ by {
            assert(texts(a)[i] == texts(b)[i]);
        }
    }
    if a.len() == b.len() && forall|i: int| 0 <= i < a.len() ==> #[trigger] a[i]@ == b[i]@ {
        assert(texts(a) =~= texts(b));
    }
}

/// Two configurations make the same selections exactly when their filtered
/// message names, hooked message names and enabled cheats are the same names
/// in the same order, their key bindings bind the same keys with the same key
/// codes to the same modules in the same order, their saved settings hold
/// the same values for the same modules and keys in the same order, and the
/// dumper is on in both or off in both.
pub proof fn lemma_equivalent_same_selections(a: AppConfig, b: AppConfig)
    ensures
        config_equivalent(a, b) <==> {
            &&& a.filtered_message_names@.len() == b.filtered_message_names@.len()
            &&& forall|i: int| 0 <= i < a.filtered_message_names@.len()
                ==> #[trigger] a.filtered_message_names@[i]@ == b.filtered_message_names@[i]@
            &&& a.hooked_message_names@.len() == b.hooked_message_names@.len()
            &&& forall|i: int| 0 <= i < a.hooked_message_names@.len()
                ==> #[trigger] a.hooked_message_names@[i]@ == b.hooked_message_names@[i]@
            &&& a.enabled_cheats@.len() == b.enabled_cheats@.len()
            &&& forall|i: int| 0 <= i < a.enabled_cheats@.len()
                ==> #[trigger] a.enabled_cheats@[i]@ == b.enabled_cheats@[i]@
            &&& a.keybinds@.len() == b.keybinds@.len()
            &&& forall|i: int| 0 <= i < a.keybinds@.len() ==> {
                &&& (#[trigger] a.keybinds@[i]).module_id@ == b.keybinds@[i].module_id@
                &&& a.keybinds@[i].key@ == b.keybinds@[i].key@
                &&& a.keybinds@[i].key_code == b.keybinds@[i].key_code
            }
            &&& a.cheat_values@.len() == b.cheat_values@.len()
            &&& forall|i: int| 0 <= i < a.cheat_values@.len() ==> {
                &&& (#[trigger] a.cheat_values@[i]).module_id@ == b.cheat_values@[i].module_id@
                &&& a.cheat_values@[i].key@ == b.cheat_values@[i].key@
                &&& a.cheat_values@[i].value@ == b.cheat_values@[i].value@
            }
            &&& a.dumper_enabled == b.dumper_enabled
        },
{
    lemma_texts_equal(a.filtered_message_names@, b.filtered_message_names@);
    lemma_texts_equal(a.hooked_message_names@, b.hooked_message_names@);
    lemma_texts_equal(a.enabled_cheats@, b.enabled_cheats@);
    let ka = a.keybinds@.map_values(|e: KeybindEntry| keybind_view(e));
    let kb = b.keybinds@.map_values(|e: KeybindEntry| keybind_view(e));
    let ca = a.cheat_values@.map_values(|e: CheatValueEntry| cheat_value_view(e));
    let cb = b.cheat_values@.map_values(|e: CheatValueEntry| cheat_value_view(e));
    if ka == kb {
        assert(ka.len() == a.keybinds@.len() && kb.len() == b.keybinds@.len());
        assert forall|i: int| 0 <= i < a.keybinds@.len() implies #[trigger] a.keybinds@[i].module_id@
            == b.keybinds@[i].module_id@ && a.keybinds@[i].key@ == b.keybinds@[i].key@
            && a.keybinds@[i].key_code == b.keybinds@[i].key_code by {
            assert(ka[i] == kb[i]);
        }
    }
    if a.keybinds@.len() == b.keybinds@.len() && forall|i: int| 0 <= i < a.keybinds@.len() ==> {
        &&& (#[trigger] a.keybinds@[i]).module_id@ == b.keybinds@[i].module_id@
        &&& a.keybinds@[i].key@ == b.keybinds@[i].key@
        &&& a.keybinds@[i].key_code == b.keybinds@[i].key_code
    } {
        assert(ka =~= kb);
    }
    if ca == cb {
        assert(ca.len() == a.cheat_values@.len() && cb.len() == b.cheat_values@.len());
        assert forall|i: int| 0 <= i < a.cheat_values@.len() implies #[trigger] a.cheat_values@[i].module_id@
            == b.cheat_values@[i].module_id@ && a.cheat_values@[i].key@ == b.cheat_values@[i].key@
            && a.cheat_values@[i].value@ == b.cheat_values@[i].value@ by {
            assert(ca[i] == cb[i]);
        }
    }
    if a.cheat_values@.len() == b.cheat_values@.len() && forall|i: int| 0 <= i < a.cheat_values@.len() ==> {
        &&& (#[trigger] a.cheat_values@[i]).module_id@ == b.cheat_values@[i].module_id@
        &&& a.cheat_values@[i].key@ == b.cheat_values@[i].key@
        &&& a.cheat_values@[i].value@ == b.cheat_values@[i].value@
    } {
        assert(ca =~= cb);
    }
}

/// Every configuration makes the same selections as itself.
pub proof fn lemma_equivalent_reflexive(a: AppConfig)
    ensures
        config_equivalent(a, a),
{
}

/// Making the same selections is symmetric.
pub proof fn lemma_equivalent_symmetric(a: AppConfig, b: AppConfig)
    requires
        config_equivalent(a, b),
    ensures
        config_equivalent(b, a),
{
}

/// Making the same selections is transitive.
pub proof fn lemma_equivalent_transitive(a: AppConfig, b: AppConfig, c: AppConfig)
    requires
        config_equivalent(a, b),
        config_equivalent(b, c),
    ensures
        config_equivalent(a, c),
{
}

// ---------------------------------------------------------------------------
// Names and files
// ---------------------------------------------------------------------------

/// Characters a configuration name may not hold.
pub open spec fn forbidden_name_char(c: char) -> bool {
    c == '/' || c == '\\' || c == ':' || c == '*' || c == '?' || c == '"' || c == '<' || c == '>'
        || c == '|'
}

/// A usable configuration name: after trimming whitespace it is not empty,
/// holds no forbidden character, and is neither `.` nor `..`.
pub open spec fn valid_config_name(name: Seq<char>) -> bool {
    let t = trim_seq(name);
    &&& t.len() > 0
    &&& forall|i: int| 0 <= i < t.len() ==> !forbidden_name_char(#[trigger] t[i])
    &&& t != seq!['.']
    &&& t != seq!['.', '.']
}

/// Accepts a usable configuration name.
pub fn validate_name(name: &str) -> (r: Result<(), ConfigStoreError>)
    ensures
        valid_config_name(name@) ==> r is Ok,
        !valid_config_name(name@) ==> r matches Err(ConfigStoreError::InvalidName),
{
    let chars = to_chars(name);
    let t = trim_chars(&chars);
    if t.len() == 0 {
        return Err(ConfigStoreError::InvalidName);
    }
    for i in 0..t.len()
        invariant
            t@ == trim_seq(name@),
            forall|k: int| 0 <= k < i ==> !forbidden_name_char(#[trigger] t@[k]),
    {
        let c = t[i];
        if c == '/' || c == '\\' || c == ':' || c == '*' || c == '?' || c == '"' || c == '<' || c
            == '>' || c == '|' {
            assert(forbidden_name_char(t@[i as int]));
            return Err(ConfigStoreError::InvalidName);
        }
    }
    let single_dot = t.len() == 1 && t[0] == '.';
    let double_dot = t.len() == 2 && t[0] == '.' && t[1] == '.';
    proof {
        if t@ == seq!['.'] {
            assert(t@[0] == '.');
        }
        if t@ == seq!['.', '.'] {
            assert(t@[0] == '.' && t@[1] == '.');
        }
        if single_dot {
            assert(t@ =~= seq!['.']);
        }
        if double_dot {
            assert(t@ =~= seq!['.', '.']);
        }
    }
    if single_dot || double_dot {
        return Err(ConfigStoreError::InvalidName);
    }
    Ok(())
}

/// The file a configuration called `name` is stored in: the name as given
/// with `.json` added.
pub fn config_file_name(name: &str) -> (r: Result<String, ConfigStoreError>)
    ensures
        valid_config_name(name@) ==> (r matches Ok(f) && f@ == name@ + seq!['.', 'j', 's', 'o', 'n']),
        !valid_config_name(name@) ==> r matches Err(ConfigStoreError::InvalidName),
{
    match validate_name(name) {
        Ok(()) => {},
        Err(e) => return Err(e),
    }
    let mut chars = to_chars(name);
    chars.push('.');
    chars.push('j');
    chars.push('s');
    chars.push('o');
    chars.push('n');
    assert(chars@ =~= name@ + seq!['.', 'j', 's', 'o', 'n']);
    Ok(string_from_chars(&chars))
}

/// The name kept in the last-loaded marker file, read from its text: the text
/// trimmed, unless that leaves nothing.
pub fn parse_last_loaded(text: &str) -> (r: Option<String>)
    ensures
        trim_seq(text@).len() > 0 ==> (r matches Some(s) && s@ == trim_seq(text@)),
        trim_seq(text@).len() == 0 ==> r is None,
{
    let chars = to_chars(text);
    let t = trim_chars(&chars);
    if t.len() == 0 {
        None
    } else {
        Some(string_from_chars(&t))
    }
}

/// `names` (with times `ko`) is `inp` (with times `ki`) reordered by `perm`
/// into a stable order of the times.
pub open spec fn stable_time_witness(
    out: Seq<String>,
    ko: Seq<u64>,
    inp: Seq<(String, u64)>,
    perm: Seq<int>,
) -> bool {
    &&& is_permutation(perm, inp.len() as int)
    &&& out.len() == inp.len()
    &&& ko.len() == inp.len()
    &&& forall|k: int| 0 <= k < out.len() ==> out[k] == inp[#[trigger] perm[k]].0 && ko[k] == inp[perm[k]].1
    &&& forall|a: int, b: int| 0 <= a < b < ko.len() ==> #[trigger] ko[a] <= #[trigger] ko[b]
    &&& forall|a: int, b: int|
        0 <= a < b < ko.len() && ko[a] == ko[b] ==> #[trigger] perm[a] < #[trigger] perm[b]
}

/// The names of the stored configurations, oldest first; configurations made
/// at the same second keep the order they were found in (`sort_by_key`).
pub fn order_by_created(entries: Vec<(String, u64)>) -> (names: Vec<String>)
    ensures
        exists|perm: Seq<int>, ko: Seq<u64>| #[trigger] stable_time_witness(names@, ko, entries@, perm),
{
    let ghost inp = entries@;
    let n = entries.len();
    let mut rest = entries;
    let mut names: Vec<String> = Vec::new();
    let mut times: Vec<u64> = Vec::new();
    let ghost mut perm: Seq<int> = Seq::empty();
    let mut i: usize = 0;
    while i < n
        invariant
            i <= n,
            n == inp.len(),
            rest@ == inp.skip(i as int),
            stable_time_witness(names@, times@, inp.take(i as int), perm),
        decreases n - i,
    {
        let (name, t) = rest.remove(0);
        assert(inp.skip(i as int)[0] == inp[i as int]);
        assert(inp.skip(i as int).remove(0) =~= inp.skip(i + 1));
        let mut p: usize = 0;
        while p < times.len() && times[p] <= t
            invariant
                p <= times@.len(),
                forall|a: int| 0 <= a < p ==> #[trigger] times@[a] <= t,
            decreases times@.len() - p,
        {
            p += 1;
        }
        let ghost ko = times@;
        let ghost old_names = names@;
        names.insert(p, name);
        times.insert(p, t);
        proof {
            let perm2 = perm.insert(p as int, i as int);
            let inp2 = inp.take(i + 1);
            assert(inp2 =~= inp.take(i as int).push(inp[i as int]));
            assert forall|k: int| 0 <= k < i + 1 implies 0 <= #[trigger] perm2[k] < i + 1 by {
                if k < p {
                    assert(perm2[k] == perm[k]);
                } else if k > p {
                    assert(perm2[k] == perm[k - 1]);
                }
            }
            assert forall|a: int, b: int| 0 <= a < b < i + 1 implies #[trigger] perm2[a]
                != #[trigger] perm2[b] by {
                if a == p {
                    assert(perm2[b] == perm[b - 1]);
                } else if b == p {
                    assert(perm2[a] == perm[a]);
                } else if a < p && b > p {
                    assert(perm2[a] == perm[a] && perm2[b] == perm[b - 1]);
                } else if a > p {
                    assert(perm2[a] == perm[a - 1] && perm2[b] == perm[b - 1]);
                } else {
                    assert(perm2[a] == perm[a] && perm2[b] == perm[b]);
                }
            }
            assert forall|k: int| 0 <= k < names@.len() implies names@[k] == inp2[#[trigger] perm2[k]].0
                && times@[k] == inp2[perm2[k]].1 by {
                if k < p {
                    assert(perm2[k] == perm[k]);
                    assert(names@[k] == old_names[k]);
                } else if k > p {
                    assert(perm2[k] == perm[k - 1]);
                    assert(names@[k] == old_names[k - 1]);
                } else {
                    assert(perm2[k] == i);
                }
            }
            assert forall|a: int, b: int| 0 <= a < b < times@.len() implies #[trigger] times@[a]
                <= #[trigger] times@[b] by {
                if a < p && b == p {
                } else if a < p && b > p {
                    assert(times@[b] == ko[b - 1]);
                    if b - 1 > p {
                        assert(ko[p as int] <= ko[b - 1]);
                    }
                } else if a == p {
                    assert(times@[b] == ko[b - 1]);
                    if b - 1 > p {
                        assert(ko[p as int] <= ko[b - 1]);
                    }
                } else if a > p {
                    assert(times@[a] == ko[a - 1] && times@[b] == ko[b - 1]);
                } else {
                    assert(times@[a] == ko[a] && times@[b] == ko[b]);
                }
            }
            assert forall|a: int, b: int| 0 <= a < b < times@.len() && times@[a] == times@[b] implies #[trigger] perm2[a]
                < #[trigger] perm2[b] by {
                if b == p {
                    assert(perm2[a] == perm[a]);
                } else if a == p {
                    assert(times@[b] == ko[b - 1]);
                    if b - 1 > p {
                        assert(ko[p as int] <= ko[b - 1]);
                    }
                } else if a < p && b > p {
                    assert(perm2[a] == perm[a] && perm2[b] == perm[b - 1]);
                } else if a > p {
                    assert(perm2[a] == perm[a - 1] && perm2[b] == perm[b - 1]);
                } else {
                    assert(perm2[a] == perm[a] && perm2[b] == perm[b]);
                }
            }
            perm = perm2;
        }
        i += 1;
    }
    assert(inp.take(n as int) == inp);
    names
}

} // verus!
