//! The asset browser: the labels of assets, the search over them, and the
//! folder tree their container paths make.

use std::collections::{HashMap, VecDeque};

use vstd::prelude::*;

use crate::config::{is_permutation, texts};
use crate::sniffer::{lowercase, to_lower};
use crate::text::{
    compare_text, contains_chars, contains_text, copy_range, first_pos,
    lemma_text_lt_irreflexive, lemma_text_lt_transitive, lemma_text_lt_trichotomy,
    push_signed_decimal, signed_decimal, string_from_chars, text_lt, to_chars, trim_chars,
    trim_seq, TextOrder,
};

verus! {

/// An asset found in the game's blocks: its container path, its name and
/// its path id.
#[derive(Clone, Debug)]
pub struct AssetEntry {
    pub container: String,
    pub name: String,
    pub path_id: i64,
}

/// The non-empty pieces of `s` between its slashes.
pub open spec fn segments(s: Seq<char>) -> Seq<Seq<char>>
    decreases s.len(),
{
    if s.len() == 0 {
        seq![]
    } else if s[0] == '/' {
        segments(s.drop_first())
    } else {
        proof {
            lemma_first_pos_bound(s, '/');
        }
        let k = first_pos(s, '/') as int;
        seq![s.take(k)] + segments(s.skip(k))
    }
}

/// A position of `c` lies within the text, and a text that does not start
/// with `c` has its first `c` after position 0.
pub proof fn lemma_first_pos_bound(s: Seq<char>, c: char)
    ensures
        first_pos(s, c) <= s.len(),
        s.len() > 0 && s[0] != c ==> first_pos(s, c) >= 1,
        first_pos(s, c) < s.len() ==> s[first_pos(s, c) as int] == c,
    decreases s.len(),
{
    if s.len() > 0 && s[0] != c {
        lemma_first_pos_bound(s.drop_first(), c);
    }
}

/// One step of a run: a character other than `c`, then the rest.
proof fn lemma_first_pos_step(s: Seq<char>, i: int, c: char)
    requires
        0 <= i < s.len(),
    ensures
        s[i] == c ==> first_pos(s.skip(i), c) == 0,
        s[i] != c ==> first_pos(s.skip(i), c) == 1 + first_pos(s.skip(i + 1), c),
{
    assert(s.skip(i).drop_first() =~= s.skip(i + 1));
}

/// The non-empty pieces of `s` between its slashes.
pub fn split_segments(s: &Vec<char>) -> (r: Vec<Vec<char>>)
    ensures
        r@.map_values(|v: Vec<char>| v@) == segments(s@),
{
    let n = s.len();
    let mut out: Vec<Vec<char>> = Vec::new();
    let mut i: usize = 0;
    assert(s@.skip(0) =~= s@);
    while i < n
        invariant
            i <= n,
            n == s.len(),
            out@.map_values(|v: Vec<char>| v@) + segments(s@.skip(i as int)) == segments(s@),
        decreases n - i,
    {
        if s[i] == '/' {
            assert(s@.skip(i as int).drop_first() =~= s@.skip(i + 1));
            i += 1;
        } else {
            let start = i;
            let ghost rest = s@.skip(start as int);
            while i < n && s[i] != '/'
                invariant
                    start <= i <= n,
                    n == s.len(),
                    rest == s@.skip(start as int),
                    first_pos(rest, '/') == (i - start) + first_pos(s@.skip(i as int), '/'),
                decreases n - i,
            {
                proof {
                    lemma_first_pos_step(s@, i as int, '/');
                }
                i += 1;
            }
            proof {
                if i < n {
                    lemma_first_pos_step(s@, i as int, '/');
                } else {
                    assert(s@.skip(n as int).len() == 0);
                }
                assert(rest.take(first_pos(rest, '/') as int) =~= s@.subrange(start as int, i as int));
                assert(rest.skip(first_pos(rest, '/') as int) =~= s@.skip(i as int));
            }
            let piece = copy_range(s, start, i);
            let ghost before = out@;
            out.push(piece);
            assert(out@.map_values(|v: Vec<char>| v@) =~= before.map_values(|v: Vec<char>| v@).push(
                piece@,
            ));
            assert(out@.map_values(|v: Vec<char>| v@) + segments(s@.skip(i as int)) =~= before.map_values(
                |v: Vec<char>| v@,
            ) + segments(rest));
        }
    }
    assert(s@.skip(n as int) =~= Seq::<char>::empty());
    assert(out@.map_values(|v: Vec<char>| v@) + Seq::<Seq<char>>::empty() =~= out@.map_values(
        |v: Vec<char>| v@,
    ));
    out
}

/// `prefix` and `name` joined by a slash; `name` alone when the prefix is
/// empty.
pub open spec fn joined(prefix: Seq<char>, name: Seq<char>) -> Seq<char> {
    if prefix.len() == 0 {
        name
    } else {
        prefix + seq!['/'] + name
    }
}

/// `prefix` and `name` joined by a slash.
pub fn join(prefix: &str, name: &str) -> (r: String)
    ensures
        r@ == joined(prefix@, name@),
{
    let mut out = to_chars(prefix);
    let n = to_chars(name);
    if out.len() > 0 {
        out.push('/');
    }
    let ghost head = out@;
    for i in 0..n.len()
        invariant
            out@ == head + n@.take(i as int),
    {
        out.push(n[i]);
        assert(n@.take(i + 1) =~= n@.take(i as int).push(n@[i as int]));
    }
    assert(n@.take(n@.len() as int) =~= n@);
    string_from_chars(&out)
}

/// How an asset is labelled: the last piece of its container path, else its
/// name, else `#` and its path id.
pub open spec fn label_of(e: AssetEntry) -> Seq<char> {
    let segs = segments(e.container@);
    if segs.len() > 0 {
        segs.last()
    } else if e.name@.len() > 0 {
        e.name@
    } else {
        seq!['#'] + signed_decimal(e.path_id)
    }
}

/// The label of an asset.
pub fn file_label(entry: &AssetEntry) -> (r: String)
    ensures
        r@ == label_of(*entry),
{
    let segs = split_segments(&to_chars(entry.container.as_str()));
    let ghost views = segs@.map_values(|v: Vec<char>| v@);
    if segs.len() > 0 {
        let last = &segs[segs.len() - 1];
        assert(views.last() == last@);
        return string_from_chars(last);
    }
    let name = to_chars(entry.name.as_str());
    if name.len() > 0 {
        return string_from_chars(&name);
    }
    let mut out: Vec<char> = Vec::new();
    out.push('#');
    push_signed_decimal(&mut out, entry.path_id);
    string_from_chars(&out)
}

/// Whether the search `q` finds asset `e`: its container path or its name
/// contains `q`, both in lower case.
pub open spec fn asset_matches(e: AssetEntry, q: Seq<char>) -> bool {
    contains_text(lowercase(e.container@), q) || contains_text(lowercase(e.name@), q)
}

/// The search text `input` as it is compared: trimmed, in lower case.
pub open spec fn search_query(input: Seq<char>) -> Seq<char> {
    lowercase(trim_seq(input))
}

/// The assets the search finds, by index: all of them when the search is
/// empty, else those that match it.
pub open spec fn found_assets(assets: Seq<AssetEntry>, q: Seq<char>) -> Seq<usize> {
    Seq::new(assets.len(), |i: int| i as usize).filter(|i: usize| q.len() == 0 || asset_matches(assets[i as int], q))
}

/// The assets found by the search text `input`, and whether a search is
/// active (its trimmed, lower-case text is not empty).
pub fn search_assets(assets: &Vec<AssetEntry>, input: &str) -> (r: (Vec<usize>, bool))
    ensures
        r.0@ == found_assets(assets@, search_query(input@)),
        r.1 == (search_query(input@).len() > 0),
        forall|k: int| 0 <= k < r.0@.len() ==> #[trigger] r.0@[k] < assets@.len(),
{
    let trimmed = string_from_chars(&trim_chars(&to_chars(input)));
    let query = to_lower(trimmed.as_str());
    let q = to_chars(query.as_str());
    let ghost all = Seq::new(assets@.len(), |i: int| i as usize);
    let ghost keep = |i: usize| q@.len() == 0 || asset_matches(assets@[i as int], q@);
    let mut out: Vec<usize> = Vec::new();
    for i in 0..assets.len()
        invariant
            all == Seq::new(assets@.len(), |i: int| i as usize),
            keep == (|i: usize| q@.len() == 0 || asset_matches(assets@[i as int], q@)),
            out@ == all.take(i as int).filter(keep),
            forall|k: int| 0 <= k < out@.len() ==> #[trigger] out@[k] < i,
    {
        reveal(Seq::filter);
        assert(all.take(i + 1).drop_last() =~= all.take(i as int));
        assert(all.take(i + 1).last() == i);
        let found = q.len() == 0 || contains_chars(&to_chars(to_lower(assets[i].container.as_str()).as_str()), &q)
            || contains_chars(&to_chars(to_lower(assets[i].name.as_str()).as_str()), &q);
        if found {
            out.push(i);
        }
    }
    assert(all.take(assets@.len() as int) =~= all);
    (out, q.len() > 0)
}

/// A search finds asset `i` exactly when its trimmed, lower-case text is
/// empty, or is contained in the asset's lower-case container path or in its
/// lower-case name.
pub proof fn lemma_search_finds(assets: Seq<AssetEntry>, input: Seq<char>, i: int)
    requires
        0 <= i < assets.len(),
        assets.len() <= usize::MAX,
    ensures
        found_assets(assets, search_query(input)).contains(i as usize) <==> (
            lowercase(trim_seq(input)).len() == 0
            || contains_text(lowercase(assets[i].container@), lowercase(trim_seq(input)))
            || contains_text(lowercase(assets[i].name@), lowercase(trim_seq(input)))),
{
    let q = search_query(input);
    let all = Seq::new(assets.len(), |k: int| k as usize);
    let keep = |k: usize| q.len() == 0 || asset_matches(assets[k as int], q);
    assert(found_assets(assets, q) == all.filter(keep));
    if found_assets(assets, q).contains(i as usize) {
        let k = choose|k: int| 0 <= k < all.filter(keep).len() && all.filter(keep)[k] == i as usize;
        all.lemma_filter_pred(keep, k);
    }
    if keep(i as usize) {
        all.lemma_filter_contains(keep, i);
    }
}


/// A folder of the asset tree: its subfolders with their names, and the
/// assets (by index) directly in it.
#[derive(Debug)]
pub struct TreeNode {
    pub children: Vec<(String, TreeNode)>,
    pub files: Vec<usize>,
}

/// Each subfolder name is below the next (as the keys of a `BTreeMap`).
pub open spec fn names_sorted(cs: Seq<(String, TreeNode)>) -> bool {
    forall|i: int, j: int| 0 <= i < j < cs.len() ==> text_lt(#[trigger] cs[i].0@, #[trigger] cs[j].0@)
}

/// Every folder of the tree has its subfolders in name order.
pub open spec fn tree_wf(node: TreeNode) -> bool
    decreases node,
{
    &&& names_sorted(node.children@)
    &&& forall|i: int| 0 <= i < node.children@.len() ==> tree_wf(#[trigger] node.children@[i].1)
}

/// The position of the subfolder named `name`.
pub open spec fn child_named(cs: Seq<(String, TreeNode)>, name: Seq<char>) -> Option<int> {
    if exists|i: int| 0 <= i < cs.len() && (#[trigger] cs[i]).0@ == name {
        Some(choose|i: int| 0 <= i < cs.len() && (#[trigger] cs[i]).0@ == name)
    } else {
        None
    }
}

/// The folder at `path` (a list of folder names) below `node`.
pub open spec fn lookup(node: TreeNode, path: Seq<Seq<char>>) -> Option<TreeNode>
    decreases path.len(),
{
    if path.len() == 0 {
        Some(node)
    } else {
        match child_named(node.children@, path[0]) {
            Some(i) => lookup(node.children@[i].1, path.drop_first()),
            None => None,
        }
    }
}

/// The assets directly in the folder at `path`; none where there is no
/// such folder.
pub open spec fn files_at(node: TreeNode, path: Seq<Seq<char>>) -> Seq<usize> {
    match lookup(node, path) {
        Some(n) => n.files@,
        None => seq![],
    }
}

/// In sorted subfolders a name is found where it stands.
proof fn lemma_child_named_at(cs: Seq<(String, TreeNode)>, i: int)
    requires
        names_sorted(cs),
        0 <= i < cs.len(),
    ensures
        child_named(cs, cs[i].0@) == Some(i),
{
    let name = cs[i].0@;
    assert(cs[i].0@ == name);
    let j = choose|j: int| 0 <= j < cs.len() && (#[trigger] cs[j]).0@ == name;
    lemma_text_lt_irreflexive(name);
    if j < i {
        assert(text_lt(cs[j].0@, cs[i].0@));
    } else if j > i {
        assert(text_lt(cs[i].0@, cs[j].0@));
    }
}

/// An empty folder has nothing below it.
proof fn lemma_lookup_empty(node: TreeNode, path: Seq<Seq<char>>)
    requires
        node.children@.len() == 0,
    ensures
        (lookup(node, path) is Some) == (path.len() == 0),
{
}

/// `path` names a folder on the way to `folder`: the folder itself or one
/// of its ancestors.
pub open spec fn on_path(path: Seq<Seq<char>>, folder: Seq<Seq<char>>) -> bool {
    path.is_prefix_of(folder)
}

/// The views of a list of folder names.
pub open spec fn name_views(v: Seq<Vec<char>>) -> Seq<Seq<char>> {
    v.map_values(|n: Vec<char>| n@)
}

/// The folder `node` with asset `idx` added to the folder at `folder[from..]`,
/// which is made (with the folders on its way) where it is missing.
#[verifier::spinoff_prover]
fn insert_file(node: TreeNode, folder: &Vec<Vec<char>>, from: usize, idx: usize) -> (r: TreeNode)
    requires
        tree_wf(node),
        from <= folder@.len(),
    ensures
        tree_wf(r),
        forall|path: Seq<Seq<char>>|
            #[trigger] lookup(r, path) is Some <==> (lookup(node, path) is Some || on_path(
                path,
                name_views(folder@).skip(from as int),
            )),
        forall|path: Seq<Seq<char>>|
            #[trigger] files_at(r, path) == files_at(node, path) + if path == name_views(
                folder@,
            ).skip(from as int) {
                seq![idx]
            } else {
                Seq::<usize>::empty()
            },
        forall|n: nat| files_below(node, n) && idx < n ==> #[trigger] files_below(r, n),
        forall|d: nat| within_depth(node, d) && folder@.len() - from <= d ==> #[trigger] within_depth(r, d),
    decreases folder@.len() - from,
{
    let ghost f = name_views(folder@).skip(from as int);
    if from == folder.len() {
        let TreeNode { children, mut files } = node;
        files.push(idx);
        let r = TreeNode { children, files };
        proof {
            assert(f.len() == 0);
            assert forall|path: Seq<Seq<char>>| #[trigger] lookup(r, path) is Some <==> (lookup(
                node,
                path,
            ) is Some || on_path(path, f)) by {
                if path.len() > 0 {
                    assert(r.children@ == node.children@);
                }
            }
            assert forall|path: Seq<Seq<char>>| #[trigger] files_at(r, path) == files_at(node, path)
                + if path == f {
                seq![idx]
            } else {
                Seq::<usize>::empty()
            } by {
                if path.len() > 0 {
                    assert(r.children@ == node.children@);
                    assert(path != f);
                    assert(files_at(node, path) + Seq::<usize>::empty() =~= files_at(node, path));
                } else {
                    assert(path =~= f);
                }
            }
            assert forall|n: nat| files_below(node, n) && idx < n implies #[trigger] files_below(r, n) by {
                assert(r.children@ == node.children@);
                assert forall|k: int| 0 <= k < r.files@.len() implies #[trigger] r.files@[k] < n by {
                    if k < node.files@.len() {
                        assert(r.files@[k] == node.files@[k]);
                    }
                }
            }
            assert forall|d: nat| within_depth(node, d) && folder@.len() - from <= d implies #[trigger] within_depth(r, d) by {
                assert(r.children@ == node.children@);
                assert forall|i: int| 0 <= i < r.children@.len() implies d >= 1 && within_depth(#[trigger] r.children@[i].1, (d - 1) as nat) by {
                    assert(r.children@[i] == node.children@[i]);
                    assert(within_depth(node.children@[i].1, (d - 1) as nat));
                }
            }
        }
        return r;
    }
    let name = &folder[from];
    let ghost nm = name@;
    assert(f[0] == nm);
    let TreeNode { mut children, files } = node;
    let ghost old_children = children@;
    let mut pos: usize = 0;
    let mut stop = false;
    while pos < children.len() && !stop
        invariant
            pos <= children@.len(),
            children@ == old_children,
            nm == name@,
            forall|j: int| 0 <= j < pos ==> text_lt(#[trigger] children@[j].0@, nm),
            stop ==> pos < children@.len() && !text_lt(children@[pos as int].0@, nm),
        decreases children@.len() - pos + if stop { 0int } else { 1int },
    {
        let c = to_chars(children[pos].0.as_str());
        if compare_text(&c, name) == TextOrder::Less {
            pos += 1;
        } else {
            stop = true;
        }
    }
    let found = pos < children.len() && compare_text(&to_chars(children[pos].0.as_str()), name)
        == TextOrder::Equal;
    if found {
        let (cname, child) = children.remove(pos);
        assert(tree_wf(child)) by {
            assert(old_children[pos as int].1 == child);
        }
        let ghost cn = cname;
        let child2 = insert_file(child, folder, from + 1, idx);
        children.insert(pos, (cname, child2));
        assert(children@ =~= old_children.update(pos as int, (old_children[pos as int].0, child2)));
        let r = TreeNode { children, files };
        proof {
            assert(name_views(folder@).skip(from + 1) =~= f.drop_first());
            lemma_insert_found(node, r, f, pos as int, child2, idx);
            assert forall|n: nat| files_below(node, n) && idx < n implies #[trigger] files_below(r, n) by {
                assert(files_below(child, n));
                assert forall|i: int| 0 <= i < r.children@.len() implies files_below(#[trigger] r.children@[i].1, n) by {
                    if i != pos {
                        assert(r.children@[i] == old_children[i]);
                    }
                }
            }
            assert forall|d: nat| within_depth(node, d) && folder@.len() - from <= d implies #[trigger] within_depth(r, d) by {
                assert(within_depth(child, (d - 1) as nat));
                assert forall|i: int| 0 <= i < r.children@.len() implies d >= 1 && within_depth(#[trigger] r.children@[i].1, (d - 1) as nat) by {
                    if i != pos {
                        assert(r.children@[i] == old_children[i]);
                    }
                }
            }
        }
        r
    } else {
        let empty = TreeNode { children: Vec::new(), files: Vec::new() };
        proof {
            lemma_lookup_empty(empty, seq![]);
        }
        let child2 = insert_file(empty, folder, from + 1, idx);
        let cname = string_from_chars(name);
        let ghost cn = cname;
        children.insert(pos, (cname, child2));
        let r = TreeNode { children, files };
        proof {
            assert(name_views(folder@).skip(from + 1) =~= f.drop_first());
            if pos < old_children.len() {
                lemma_text_lt_trichotomy(nm, old_children[pos as int].0@);
            }
            assert(r.children@ == old_children.insert(pos as int, (cn, child2)));
            lemma_insert_new(node, r, f, pos as int, child2, empty, idx);
            assert forall|n: nat| files_below(node, n) && idx < n implies #[trigger] files_below(r, n) by {
                assert(files_below(empty, n));
                assert forall|i: int| 0 <= i < r.children@.len() implies files_below(#[trigger] r.children@[i].1, n) by {
                    if i < pos {
                        assert(r.children@[i] == old_children[i]);
                    } else if i > pos {
                        assert(r.children@[i] == old_children[i - 1]);
                    }
                }
            }
            assert forall|d: nat| within_depth(node, d) && folder@.len() - from <= d implies #[trigger] within_depth(r, d) by {
                assert(within_depth(empty, (d - 1) as nat));
                assert forall|i: int| 0 <= i < r.children@.len() implies d >= 1 && within_depth(#[trigger] r.children@[i].1, (d - 1) as nat) by {
                    if i < pos {
                        assert(r.children@[i] == old_children[i]);
                    } else if i > pos {
                        assert(r.children@[i] == old_children[i - 1]);
                    }
                }
            }
        }
        r
    }
}

/// What going down to a replaced subfolder gives: the relation between the
/// new and the old subfolder, seen from their parents.
pub open spec fn grows_by(
    new_child: TreeNode,
    old_child: TreeNode,
    rest: Seq<Seq<char>>,
    idx: usize,
) -> bool {
    &&& forall|p: Seq<Seq<char>>|
        #[trigger] lookup(new_child, p) is Some <==> (lookup(old_child, p) is Some || on_path(p, rest))
    &&& forall|p: Seq<Seq<char>>|
        #[trigger] files_at(new_child, p) == files_at(old_child, p) + if p == rest {
            seq![idx]
        } else {
            Seq::<usize>::empty()
        }
}

/// A path through a named folder continues as the rest of the path below it.
proof fn lemma_on_path_step(path: Seq<Seq<char>>, f: Seq<Seq<char>>)
    requires
        path.len() > 0,
        f.len() > 0,
        path[0] == f[0],
    ensures
        on_path(path, f) == on_path(path.drop_first(), f.drop_first()),
        (path == f) == (path.drop_first() == f.drop_first()),
{
    if on_path(path.drop_first(), f.drop_first()) {
        assert forall|k: int| 0 <= k < path.len() implies path[k] == f[k] by {
            if k > 0 {
                assert(path[k] == path.drop_first()[k - 1]);
                assert(path.drop_first()[k - 1] == f.drop_first().subrange(0, path.len() - 1)[k - 1]);
            }
        }
        assert(path =~= f.subrange(0, path.len() as int));
    }
    if on_path(path, f) {
        assert(path.drop_first() =~= f.drop_first().subrange(0, path.len() - 1));
    }
    if path.drop_first() == f.drop_first() {
        assert(path =~= f);
    }
}

/// Replacing the subfolder at `pos`, named `f[0]`, by one grown with asset
/// `idx` at `f[1..]` grows the parent with it at `f`.
proof fn lemma_insert_found(node: TreeNode, r: TreeNode, f: Seq<Seq<char>>, pos: int, child2: TreeNode, idx: usize)
    requires
        tree_wf(node),
        f.len() > 0,
        0 <= pos < node.children@.len(),
        node.children@[pos].0@ == f[0],
        r.files@ == node.files@,
        r.children@ == node.children@.update(pos, (node.children@[pos].0, child2)),
        tree_wf(child2),
        grows_by(child2, node.children@[pos].1, f.drop_first(), idx),
    ensures
        tree_wf(r),
        grows_by(r, node, f, idx),
{
    let cs = node.children@;
    let rs = r.children@;
    assert(names_sorted(rs)) by {
        assert forall|i: int, j: int| 0 <= i < j < rs.len() implies text_lt(#[trigger] rs[i].0@, #[trigger] rs[j].0@) by {
            assert(rs[i].0@ == cs[i].0@);
            assert(rs[j].0@ == cs[j].0@);
        }
    }
    assert forall|i: int| 0 <= i < rs.len() implies tree_wf(#[trigger] rs[i].1) by {
        if i != pos {
            assert(rs[i] == cs[i]);
        }
    }
    assert(tree_wf(r));
    lemma_child_named_at(cs, pos);
    lemma_child_named_at(rs, pos);
    assert forall|path: Seq<Seq<char>>| #[trigger] lookup(r, path) is Some <==> (lookup(node, path) is Some
        || on_path(path, f)) by {
        lemma_lookup_case(node, r, f, pos, child2, idx, path);
    }
    assert forall|path: Seq<Seq<char>>| #[trigger] files_at(r, path) == files_at(node, path) + if path == f {
        seq![idx]
    } else {
        Seq::<usize>::empty()
    } by {
        lemma_lookup_case(node, r, f, pos, child2, idx, path);
    }
}

/// One path through a parent whose subfolder at `pos` was replaced.
proof fn lemma_lookup_case(node: TreeNode, r: TreeNode, f: Seq<Seq<char>>, pos: int, child2: TreeNode, idx: usize, path: Seq<Seq<char>>)
    requires
        tree_wf(node),
        tree_wf(r),
        f.len() > 0,
        0 <= pos < node.children@.len(),
        node.children@[pos].0@ == f[0],
        r.files@ == node.files@,
        r.children@ == node.children@.update(pos, (node.children@[pos].0, child2)),
        grows_by(child2, node.children@[pos].1, f.drop_first(), idx),
    ensures
        lookup(r, path) is Some <==> (lookup(node, path) is Some || on_path(path, f)),
        files_at(r, path) == files_at(node, path) + if path == f {
            seq![idx]
        } else {
            Seq::<usize>::empty()
        },
{
    let cs = node.children@;
    let rs = r.children@;
    if path.len() == 0 {
        assert(path != f);
        assert(files_at(node, path) + Seq::<usize>::empty() =~= files_at(node, path));
    } else if path[0] == f[0] {
        lemma_child_named_at(cs, pos);
        lemma_child_named_at(rs, pos);
        lemma_on_path_step(path, f);
        let p = path.drop_first();
        assert(lookup(r, path) == lookup(child2, p));
        assert(lookup(node, path) == lookup(cs[pos].1, p));
        assert(files_at(child2, p) == files_at(cs[pos].1, p) + if p == f.drop_first() {
            seq![idx]
        } else {
            Seq::<usize>::empty()
        });
    } else {
        assert(!on_path(path, f)) by {
            if on_path(path, f) {
                assert(path[0] == f[0]);
            }
        }
        assert(path != f);
        assert(files_at(node, path) + Seq::<usize>::empty() =~= files_at(node, path));
        match child_named(cs, path[0]) {
            Some(j) => {
                let j = choose|j: int| 0 <= j < cs.len() && (#[trigger] cs[j]).0@ == path[0];
                lemma_child_named_at(cs, j);
                assert(j != pos);
                assert(rs[j] == cs[j]);
                lemma_child_named_at(rs, j);
            },
            None => {
                assert forall|k: int| 0 <= k < rs.len() implies (#[trigger] rs[k]).0@ != path[0] by {
                    if k != pos {
                        assert(rs[k] == cs[k]);
                    }
                }
            },
        }
    }
}

/// Adding a new subfolder named `f[0]` at `pos`, holding asset `idx` at
/// `f[1..]`, grows the parent with it at `f`.
#[verifier::spinoff_prover]
proof fn lemma_insert_new(node: TreeNode, r: TreeNode, f: Seq<Seq<char>>, pos: int, child2: TreeNode, empty: TreeNode, idx: usize)
    requires
        empty.children@.len() == 0,
        empty.files@.len() == 0,
        tree_wf(node),
        f.len() > 0,
        0 <= pos <= node.children@.len(),
        forall|j: int| 0 <= j < pos ==> text_lt(#[trigger] node.children@[j].0@, f[0]),
        pos < node.children@.len() ==> text_lt(f[0], node.children@[pos].0@),
        r.files@ == node.files@,
        exists|c: String| c@ == f[0] && r.children@ == node.children@.insert(pos, (c, child2)),
        tree_wf(child2),
        grows_by(child2, empty, f.drop_first(), idx),
    ensures
        tree_wf(r),
        grows_by(r, node, f, idx),
{
    let cs = node.children@;
    let rs = r.children@;
    assert(rs.len() == cs.len() + 1);
    assert(rs[pos].0@ == f[0]);
    assert(rs[pos].1 == child2);
    assert forall|k: int| 0 <= k < rs.len() && k != pos implies #[trigger] rs[k] == if k < pos {
        cs[k]
    } else {
        cs[k - 1]
    } by {}
    assert(names_sorted(rs)) by {
        assert forall|i: int, j: int| 0 <= i < j < rs.len() implies text_lt(#[trigger] rs[i].0@, #[trigger] rs[j].0@) by {
            if j < pos {
                assert(rs[i] == cs[i] && rs[j] == cs[j]);
            } else if i > pos {
                assert(rs[i] == cs[i - 1] && rs[j] == cs[j - 1]);
            } else if i == pos {
                assert(rs[j] == cs[j - 1]);
                if j - 1 > pos {
                    lemma_text_lt_transitive(f[0], cs[pos].0@, cs[j - 1].0@);
                }
            } else if j == pos {
                assert(rs[i] == cs[i]);
            } else {
                assert(rs[i] == cs[i] && rs[j] == cs[j - 1]);
                if j - 1 > pos {
                    lemma_text_lt_transitive(f[0], cs[pos].0@, cs[j - 1].0@);
                }
                lemma_text_lt_transitive(cs[i].0@, f[0], cs[j - 1].0@);
            }
        }
    }
    assert forall|i: int| 0 <= i < rs.len() implies tree_wf(#[trigger] rs[i].1) by {
        if i < pos {
            assert(rs[i] == cs[i]);
        } else if i > pos {
            assert(rs[i] == cs[i - 1]);
        }
    }
    assert(tree_wf(r));
    assert forall|path: Seq<Seq<char>>| #[trigger] lookup(r, path) is Some <==> (lookup(node, path) is Some
        || on_path(path, f)) by {
        lemma_new_case(node, r, f, pos, child2, empty, idx, path);
    }
    assert forall|path: Seq<Seq<char>>| #[trigger] files_at(r, path) == files_at(node, path) + if path == f {
        seq![idx]
    } else {
        Seq::<usize>::empty()
    } by {
        lemma_new_case(node, r, f, pos, child2, empty, idx, path);
    }
}

/// One path through a parent that got a new subfolder at `pos`.
#[verifier::spinoff_prover]
proof fn lemma_new_case(node: TreeNode, r: TreeNode, f: Seq<Seq<char>>, pos: int, child2: TreeNode, empty: TreeNode, idx: usize, path: Seq<Seq<char>>)
    requires
        empty.children@.len() == 0,
        empty.files@.len() == 0,
        tree_wf(node),
        tree_wf(r),
        f.len() > 0,
        0 <= pos <= node.children@.len(),
        forall|j: int| 0 <= j < pos ==> text_lt(#[trigger] node.children@[j].0@, f[0]),
        pos < node.children@.len() ==> text_lt(f[0], node.children@[pos].0@),
        r.files@ == node.files@,
        r.children@.len() == node.children@.len() + 1,
        r.children@[pos].0@ == f[0],
        r.children@[pos].1 == child2,
        forall|k: int| 0 <= k < r.children@.len() && k != pos ==> #[trigger] r.children@[k] == if k < pos {
            node.children@[k]
        } else {
            node.children@[k - 1]
        },
        grows_by(child2, empty, f.drop_first(), idx),
    ensures
        lookup(r, path) is Some <==> (lookup(node, path) is Some || on_path(path, f)),
        files_at(r, path) == files_at(node, path) + if path == f {
            seq![idx]
        } else {
            Seq::<usize>::empty()
        },
{
    let cs = node.children@;
    let rs = r.children@;
    if path.len() == 0 {
        assert(path != f);
        assert(files_at(node, path) + Seq::<usize>::empty() =~= files_at(node, path));
    } else if path[0] == f[0] {
        lemma_child_named_at(rs, pos);
        lemma_on_path_step(path, f);
        let p = path.drop_first();
        assert(lookup(r, path) == lookup(child2, p));
        assert forall|k: int| 0 <= k < cs.len() implies (#[trigger] cs[k]).0@ != f[0] by {
            lemma_text_lt_irreflexive(f[0]);
            if k < pos {
            } else if k > pos {
                lemma_text_lt_transitive(f[0], cs[pos].0@, cs[k].0@);
            }
        }
        assert(lookup(node, path) is None);
        lemma_lookup_empty(empty, p);
        assert(files_at(child2, p) == files_at(empty, p) + if p == f.drop_first() {
            seq![idx]
        } else {
            Seq::<usize>::empty()
        });
        assert(files_at(empty, p) == Seq::<usize>::empty()) by {
            if p.len() == 0 {
                assert(empty.files@ =~= Seq::<usize>::empty());
            }
        }
        assert(files_at(node, path) == Seq::<usize>::empty());
        assert(Seq::<usize>::empty() + Seq::<usize>::empty() =~= Seq::<usize>::empty());
        assert(Seq::<usize>::empty() + seq![idx] =~= seq![idx]);
    } else {
        assert(!on_path(path, f)) by {
            if on_path(path, f) {
                assert(path[0] == f[0]);
            }
        }
        assert(path != f);
        assert(files_at(node, path) + Seq::<usize>::empty() =~= files_at(node, path));
        match child_named(cs, path[0]) {
            Some(j) => {
                let j = choose|j: int| 0 <= j < cs.len() && (#[trigger] cs[j]).0@ == path[0];
                lemma_child_named_at(cs, j);
                if j < pos {
                    assert(rs[j] == cs[j]);
                    lemma_child_named_at(rs, j);
                } else {
                    assert(rs[j + 1] == cs[j]);
                    lemma_child_named_at(rs, j + 1);
                }
            },
            None => {
                assert forall|k: int| 0 <= k < rs.len() implies (#[trigger] rs[k]).0@ != path[0] by {
                    if k < pos {
                        assert(rs[k] == cs[k]);
                    } else if k > pos {
                        assert(rs[k] == cs[k - 1]);
                    }
                }
            },
        }
    }
}

/// The folder an asset lies in: the pieces of its container path but the
/// last; the top folder when there is at most one piece.
pub open spec fn folder_of(container: Seq<char>) -> Seq<Seq<char>> {
    let p = segments(container);
    if p.len() <= 1 {
        seq![]
    } else {
        p.drop_last()
    }
}

/// Whether asset `i` lies directly in the folder `path`.
pub open spec fn in_folder(assets: Seq<AssetEntry>, path: Seq<Seq<char>>) -> spec_fn(usize) -> bool {
    |i: usize| folder_of(assets[i as int].container@) == path
}

/// `root` is the folder tree of the assets `indices`: its folders are the
/// top folder and every folder on the way to an asset's folder, and each
/// folder holds the assets that lie directly in it, in the order of
/// `indices`.
pub open spec fn tree_of(root: TreeNode, assets: Seq<AssetEntry>, indices: Seq<usize>) -> bool {
    &&& tree_wf(root)
    &&& forall|path: Seq<Seq<char>>|
        #[trigger] lookup(root, path) is Some <==> (path.len() == 0 || exists|k: int|
            0 <= k < indices.len() && on_path(path, #[trigger] folder_of(assets[indices[k] as int].container@)))
    &&& forall|path: Seq<Seq<char>>|
        #[trigger] files_at(root, path) == indices.filter(in_folder(assets, path))
}

/// The folder tree of the assets `indices` (each an index into `assets`).
#[verifier::spinoff_prover]
pub fn build_tree(assets: &Vec<AssetEntry>, indices: &Vec<usize>) -> (root: TreeNode)
    requires
        forall|k: int| 0 <= k < indices@.len() ==> #[trigger] indices@[k] < assets@.len(),
    ensures
        tree_of(root, assets@, indices@),
        within_depth(root, usize::MAX as nat),
        files_below(root, assets@.len()),
{
    let mut root = TreeNode { children: Vec::new(), files: Vec::new() };
    proof {
        reveal(Seq::filter);
        assert forall|path: Seq<Seq<char>>| #[trigger] files_at(root, path) == indices@.take(0).filter(
            in_folder(assets@, path),
        ) by {
            lemma_lookup_empty(root, path);
            assert(root.files@ =~= Seq::<usize>::empty());
        }
        assert forall|path: Seq<Seq<char>>| #[trigger] lookup(root, path) is Some <==> (path.len() == 0
            || exists|k: int|
            0 <= k < indices@.take(0).len() && on_path(
                path,
                #[trigger] folder_of(assets@[indices@.take(0)[k] as int].container@),
            )) by {
            lemma_lookup_empty(root, path);
        }
    }
    for k in 0..indices.len()
        invariant
            forall|j: int| 0 <= j < indices@.len() ==> #[trigger] indices@[j] < assets@.len(),
            tree_of(root, assets@, indices@.take(k as int)),
            within_depth(root, usize::MAX as nat),
            files_below(root, assets@.len()),
    {
        let idx = indices[k];
        let mut parts = split_segments(&to_chars(assets[idx].container.as_str()));
        let ghost segs = parts@.map_values(|v: Vec<char>| v@);
        let keep = if parts.len() <= 1 {
            0
        } else {
            parts.len() - 1
        };
        parts.truncate(keep);
        let ghost folder = folder_of(assets@[idx as int].container@);
        assert(name_views(parts@).skip(0) =~= folder);
        let ghost before = root;
        root = insert_file(root, &parts, 0, idx);
        proof {
            reveal(Seq::filter);
            let pre = indices@.take(k as int);
            let post = indices@.take(k + 1);
            assert(post.drop_last() =~= pre);
            assert(post.last() == idx);
            assert forall|path: Seq<Seq<char>>| #[trigger] files_at(root, path) == post.filter(
                in_folder(assets@, path),
            ) by {
                assert(files_at(before, path) == pre.filter(in_folder(assets@, path)));
                if path == folder {
                    assert(post.filter(in_folder(assets@, path)) == pre.filter(in_folder(assets@, path)).push(idx));
                    assert(pre.filter(in_folder(assets@, path)) + seq![idx] =~= pre.filter(in_folder(assets@, path)).push(idx));
                } else {
                    assert(pre.filter(in_folder(assets@, path)) + Seq::<usize>::empty() =~= pre.filter(
                        in_folder(assets@, path),
                    ));
                }
            }
            assert forall|path: Seq<Seq<char>>| #[trigger] lookup(root, path) is Some <==> (path.len() == 0
                || exists|j: int|
                0 <= j < post.len() && on_path(path, #[trigger] folder_of(assets@[post[j] as int].container@))) by {
                if on_path(path, folder) {
                    assert(post[k as int] == idx);
                    assert(on_path(path, folder_of(assets@[post[k as int] as int].container@)));
                }
                if exists|j: int| 0 <= j < pre.len() && on_path(path, #[trigger] folder_of(assets@[pre[j] as int].container@)) {
                    let j = choose|j: int| 0 <= j < pre.len() && on_path(path, #[trigger] folder_of(assets@[pre[j] as int].container@));
                    assert(post[j] == pre[j]);
                }
                if exists|j: int| 0 <= j < post.len() && on_path(path, #[trigger] folder_of(assets@[post[j] as int].container@)) {
                    let j = choose|j: int| 0 <= j < post.len() && on_path(path, #[trigger] folder_of(assets@[post[j] as int].container@));
                    if j < k {
                        assert(post[j] == pre[j]);
                    }
                }
            }
        }
    }
    assert(indices@.take(indices@.len() as int) =~= indices@);
    root
}

/// A row of the asset tree as shown: a folder (its path, its label, its
/// depth and whether it is open) or an asset (its index, label and depth).
#[derive(Clone, Debug)]
pub enum Row {
    Folder { path: String, label: String, depth: usize, expanded: bool },
    File { asset_idx: usize, label: String, depth: usize },
}

/// What a row shows.
pub enum RowView {
    Folder { path: Seq<char>, label: Seq<char>, depth: nat, expanded: bool },
    File { asset_idx: usize, label: Seq<char>, depth: nat },
}

/// What row `r` shows.
pub open spec fn row_view(r: Row) -> RowView {
    match r {
        Row::Folder { path, label, depth, expanded } => RowView::Folder {
            path: path@,
            label: label@,
            depth: depth as nat,
            expanded,
        },
        Row::File { asset_idx, label, depth } => RowView::File {
            asset_idx,
            label: label@,
            depth: depth as nat,
        },
    }
}

/// What rows show.
pub open spec fn rows_view(rs: Seq<Row>) -> Seq<RowView> {
    rs.map_values(|r: Row| row_view(r))
}

/// A folder whose only content is one subfolder is shown merged with it:
/// the label and path grow by the subfolder's name, down to the first
/// folder that holds assets or more (or fewer) than one subfolder.
pub open spec fn compress(label: Seq<char>, full: Seq<char>, cur: TreeNode) -> (Seq<char>, Seq<char>, TreeNode)
    decreases cur,
{
    if cur.files@.len() == 0 && cur.children@.len() == 1 {
        let cn = cur.children@[0].0@;
        compress(label + seq!['/'] + cn, joined(full, cn), cur.children@[0].1)
    } else {
        (label, full, cur)
    }
}

/// The folder where merging stops lies at or below the folder it starts at.
pub proof fn lemma_compress_below(label: Seq<char>, full: Seq<char>, cur: TreeNode)
    ensures
        compress(label, full, cur).2 == cur || decreases_to!(cur => compress(label, full, cur).2),
    decreases cur,
{
    if cur.files@.len() == 0 && cur.children@.len() == 1 {
        let cn = cur.children@[0].0@;
        let next = cur.children@[0].1;
        assert(decreases_to!(cur => next)) by {
            assert(decreases_to!(cur => cur.children));
            assert(decreases_to!(cur.children => cur.children@));
            assert(decreases_to!(cur.children@ => cur.children@[0]));
            assert(decreases_to!(cur.children@[0] => cur.children@[0].1));
        }
        lemma_compress_below(label + seq!['/'] + cn, joined(full, cn), next);
    }
}

/// The order of asset rows: by label, then by asset index (the order of
/// `(String, usize)` tuples).
pub open spec fn label_lt(a: (Seq<char>, usize), b: (Seq<char>, usize)) -> bool {
    text_lt(a.0, b.0) || (a.0 == b.0 && a.1 < b.1)
}

/// Labelled assets are equal or ordered one way, not both.
proof fn lemma_label_lt_trichotomy(a: (Seq<char>, usize), b: (Seq<char>, usize))
    ensures
        label_lt(a, b) || a == b || label_lt(b, a),
        !(label_lt(a, b) && label_lt(b, a)),
{
    lemma_text_lt_trichotomy(a.0, b.0);
    lemma_text_lt_irreflexive(a.0);
}

/// The order of labelled assets is transitive.
proof fn lemma_label_lt_transitive(a: (Seq<char>, usize), b: (Seq<char>, usize), c: (Seq<char>, usize))
    requires
        label_lt(a, b),
        label_lt(b, c),
    ensures
        label_lt(a, c),
{
    if text_lt(a.0, b.0) && text_lt(b.0, c.0) {
        lemma_text_lt_transitive(a.0, b.0, c.0);
    }
}

/// What a labelled asset is compared by.
pub open spec fn label_key(x: (String, usize)) -> (Seq<char>, usize) {
    (x.0@, x.1)
}

/// Labelled assets in order.
pub open spec fn labels_sorted(s: Seq<(String, usize)>) -> bool {
    forall|a: int, b: int| 0 <= a < b < s.len() ==> !label_lt(label_key(#[trigger] s[b]), label_key(#[trigger] s[a]))
}

/// `out` is `inp` rearranged by `perm`.
pub open spec fn rearranged<T>(out: Seq<T>, inp: Seq<T>, perm: Seq<int>) -> bool {
    &&& is_permutation(perm, inp.len() as int)
    &&& out.len() == inp.len()
    &&& forall|k: int| 0 <= k < out.len() ==> out[k] == inp[#[trigger] perm[k]]
}

/// Whether `a` comes before `b`.
fn label_before(a: &(String, usize), b: &(String, usize)) -> (r: bool)
    ensures
        r == label_lt(label_key(*a), label_key(*b)),
{
    match compare_text(&to_chars(a.0.as_str()), &to_chars(b.0.as_str())) {
        TextOrder::Less => true,
        TextOrder::Greater => false,
        TextOrder::Equal => a.1 < b.1,
    }
}

/// Labelled assets sorted by label, then index (`sort` on the tuples).
pub fn sort_labelled(items: Vec<(String, usize)>) -> (out: Vec<(String, usize)>)
    ensures
        labels_sorted(out@),
        exists|perm: Seq<int>| rearranged(out@, items@, perm),
{
    let mut items = items;
    let n = items.len();
    let ghost inp = items@;
    let ghost mut perm: Seq<int> = Seq::empty();
    for i in 0..n
        invariant
            n == inp.len(),
            items@.len() == n,
            items@.skip(i as int) == inp.skip(i as int),
            labels_sorted(items@.take(i as int)),
            rearranged(items@.take(i as int), inp.take(i as int), perm),
    {
        let ghost pre = items@.take(i as int);
        assert(items@[i as int] == inp[i as int]) by {
            assert(items@.skip(i as int)[0] == inp.skip(i as int)[0]);
        }
        let ghost kx = label_key(items@[i as int]);
        let mut p: usize = 0;
        while p < i && !label_before(&items[i], &items[p])
            invariant
                p <= i < n,
                items@.len() == n,
                pre == items@.take(i as int),
                kx == label_key(items@[i as int]),
                forall|a: int| 0 <= a < p ==> !label_lt(kx, label_key(#[trigger] pre[a])),
            decreases i - p,
        {
            p += 1;
        }
        let ghost old_items = items@;
        let x = items.remove(i);
        items.insert(p, x);
        proof {
            let perm2 = perm.insert(p as int, i as int);
            let post = items@.take(i + 1);
            assert(items@ =~= old_items.remove(i as int).insert(p as int, old_items[i as int]));
            assert(post =~= pre.insert(p as int, inp[i as int]));
            assert(inp.take(i + 1) =~= inp.take(i as int).push(inp[i as int]));
            assert(items@.skip(i + 1) =~= old_items.skip(i + 1));
            assert(old_items.skip(i + 1) =~= inp.skip(i + 1)) by {
                assert forall|k: int| 0 <= k < n - i - 1 implies #[trigger] old_items.skip(i + 1)[k]
                    == inp.skip(i + 1)[k] by {
                    assert(old_items.skip(i as int)[k + 1] == inp.skip(i as int)[k + 1]);
                }
            }
            if p < i {
                assert(label_lt(kx, label_key(pre[p as int])));
            }
            assert forall|a: int, b: int| 0 <= a < b < post.len() implies !label_lt(
                label_key(#[trigger] post[b]),
                label_key(#[trigger] post[a]),
            ) by {
                if b < p {
                    assert(post[a] == pre[a] && post[b] == pre[b]);
                } else if a > p {
                    assert(post[a] == pre[a - 1] && post[b] == pre[b - 1]);
                } else if a == p {
                    assert(post[b] == pre[b - 1]);
                    lemma_label_lt_trichotomy(kx, label_key(pre[b - 1]));
                    if b - 1 > p {
                        lemma_label_lt_trichotomy(label_key(pre[p as int]), label_key(pre[b - 1]));
                        if label_key(pre[p as int]) != label_key(pre[b - 1]) {
                            lemma_label_lt_transitive(kx, label_key(pre[p as int]), label_key(pre[b - 1]));
                        }
                    }
                } else if b == p {
                    assert(post[a] == pre[a]);
                } else {
                    assert(post[a] == pre[a] && post[b] == pre[b - 1]);
                    if b - 1 == p {
                        lemma_label_lt_trichotomy(kx, label_key(pre[a]));
                        if label_lt(label_key(pre[b - 1]), label_key(pre[a])) && kx != label_key(pre[a]) {
                            lemma_label_lt_transitive(kx, label_key(pre[a]), label_key(pre[p as int]));
                            lemma_label_lt_trichotomy(kx, label_key(pre[p as int]));
                        }
                    } else {
                        assert(!label_lt(label_key(pre[b - 1]), label_key(pre[a])));
                    }
                }
            }
            assert forall|k: int| 0 <= k < i + 1 implies 0 <= #[trigger] perm2[k] < i + 1 by {
                if k < p {
                    assert(perm2[k] == perm[k]);
                } else if k > p {
                    assert(perm2[k] == perm[k - 1]);
                }
            }
            assert forall|a: int, b: int| 0 <= a < b < i + 1 implies #[trigger] perm2[a] != #[trigger] perm2[b] by {
                if a == p {
                    assert(perm2[b] == perm[b - 1]);
                } else if b == p {
                    assert(perm2[a] == perm[a]);
                } else if a < p && b > p {
                    assert(perm2[a] == perm[a] && perm2[b] == perm[b - 1]);
                } else if a > p {
                    assert(perm2[a] == perm[a - 1] && perm2[b] == perm[b - 1]);
                } else {
                    assert(perm2[a] == perm[a] && perm2[b] == perm[b]);
                }
            }
            assert forall|k: int| 0 <= k < post.len() implies post[k] == inp.take(i + 1)[#[trigger] perm2[k]] by {
                if k < p {
                    assert(perm2[k] == perm[k]);
                    assert(post[k] == pre[k]);
                } else if k > p {
                    assert(perm2[k] == perm[k - 1]);
                    assert(post[k] == pre[k - 1]);
                } else {
                    assert(perm2[k] == i);
                }
            }
            perm = perm2;
        }
    }
    proof {
        assert(items@.take(n as int) == items@);
        assert(inp.take(n as int) == inp);
    }
    items
}

/// Every folder lies at most `d` levels below `node`.
pub open spec fn within_depth(node: TreeNode, d: nat) -> bool
    decreases node,
{
    node.children@.len() == 0 || (d >= 1 && forall|i: int|
        0 <= i < node.children@.len() ==> within_depth(#[trigger] node.children@[i].1, (d - 1) as nat))
}

/// Every asset in the tree is an index below `n`.
pub open spec fn files_below(node: TreeNode, n: nat) -> bool
    decreases node,
{
    &&& forall|k: int| 0 <= k < node.files@.len() ==> #[trigger] node.files@[k] < n
    &&& forall|i: int| 0 <= i < node.children@.len() ==> files_below(#[trigger] node.children@[i].1, n)
}

/// A tree within `d` levels is within any larger number of levels.
proof fn lemma_within_depth_more(node: TreeNode, d: nat, e: nat)
    requires
        within_depth(node, d),
        d <= e,
    ensures
        within_depth(node, e),
    decreases node,
{
    assert forall|i: int| 0 <= i < node.children@.len() implies e >= 1 && within_depth(
        #[trigger] node.children@[i].1,
        (e - 1) as nat,
    ) by {
        assert(decreases_to!(node => node.children@[i].1)) by {
            assert(decreases_to!(node => node.children));
            assert(decreases_to!(node.children => node.children@));
            assert(decreases_to!(node.children@ => node.children@[i]));
            assert(decreases_to!(node.children@[i] => node.children@[i].1));
        }
        lemma_within_depth_more(node.children@[i].1, (d - 1) as nat, (e - 1) as nat);
    }
}

/// Merging folders keeps the depth and index bounds of where it starts.
proof fn lemma_compress_bounds(label: Seq<char>, full: Seq<char>, cur: TreeNode, d: nat, n: nat)
    ensures
        within_depth(cur, d) ==> within_depth(compress(label, full, cur).2, d),
        files_below(cur, n) ==> files_below(compress(label, full, cur).2, n),
    decreases cur,
{
    if cur.files@.len() == 0 && cur.children@.len() == 1 {
        let cn = cur.children@[0].0@;
        let next = cur.children@[0].1;
        assert(decreases_to!(cur => next)) by {
            assert(decreases_to!(cur => cur.children));
            assert(decreases_to!(cur.children => cur.children@));
            assert(decreases_to!(cur.children@ => cur.children@[0]));
            assert(decreases_to!(cur.children@[0] => cur.children@[0].1));
        }
        lemma_compress_bounds(label + seq!['/'] + cn, joined(full, cn), next, d, n);
        if within_depth(cur, d) {
            lemma_within_depth_more(next, (d - 1) as nat, d);
        }
    }
}

/// The sort key of an asset row.
pub open spec fn file_key(r: RowView) -> (Seq<char>, usize) {
    match r {
        RowView::File { asset_idx, label, .. } => (label, asset_idx),
        RowView::Folder { .. } => (Seq::empty(), 0),
    }
}

/// `rows` are the asset rows of a folder holding `files`: one row at
/// `depth` for each, with its label, in label-then-index order.
pub open spec fn file_rows_ok(rows: Seq<RowView>, files: Seq<usize>, assets: Seq<AssetEntry>, depth: nat) -> bool {
    &&& rows.len() == files.len()
    &&& exists|perm: Seq<int>|
        {
            &&& is_permutation(perm, files.len() as int)
            &&& forall|k: int|
                0 <= k < rows.len() ==> #[trigger] rows[k] == RowView::File {
                    asset_idx: files[perm[k]],
                    label: label_of(assets[files[perm[k]] as int]),
                    depth,
                }
        }
    &&& forall|a: int, b: int|
        0 <= a < b < rows.len() ==> !label_lt(file_key(#[trigger] rows[b]), file_key(#[trigger] rows[a]))
}

/// The folder row shown for subfolder `i` of `node`, which lies below the
/// folder path `prefix`: its merged label and path, and whether it is open.
pub open spec fn folder_row(node: TreeNode, i: int, prefix: Seq<char>, depth: nat, expanded: Seq<Seq<char>>, force_open: bool) -> RowView {
    let c = compress(node.children@[i].0@, joined(prefix, node.children@[i].0@), node.children@[i].1);
    RowView::Folder {
        path: c.1,
        label: c.0,
        depth,
        expanded: force_open || expanded.contains(c.1),
    }
}

/// `rows` list subfolders `i..` of `node` and then its assets: each
/// subfolder (merged with the single subfolders below it) as a folder row,
/// followed, when it is open (all are when `force_open`), by its own rows
/// one level deeper; then the folder's assets.
pub open spec fn walk_ok(
    rows: Seq<RowView>,
    node: TreeNode,
    i: int,
    prefix: Seq<char>,
    depth: nat,
    expanded: Seq<Seq<char>>,
    force_open: bool,
    assets: Seq<AssetEntry>,
) -> bool
    decreases node, node.children@.len() - i,
{
    if i >= node.children@.len() || i < 0 {
        i >= 0 && file_rows_ok(rows, node.files@, assets, depth)
    } else {
        let c = compress(node.children@[i].0@, joined(prefix, node.children@[i].0@), node.children@[i].1);
        let open = force_open || expanded.contains(c.1);
        proof {
            lemma_compress_below(node.children@[i].0@, joined(prefix, node.children@[i].0@), node.children@[i].1);
            assert(decreases_to!(node => node.children@[i].1)) by {
                assert(decreases_to!(node => node.children));
                assert(decreases_to!(node.children => node.children@));
                assert(decreases_to!(node.children@ => node.children@[i]));
                assert(decreases_to!(node.children@[i] => node.children@[i].1));
            }
        }
        exists|sub: Seq<RowView>, rest: Seq<RowView>|
            {
                &&& rows == seq![folder_row(node, i, prefix, depth, expanded, force_open)] + sub + rest
                &&& if open {
                    walk_ok(sub, c.2, 0, c.1, depth + 1, expanded, force_open, assets)
                } else {
                    sub.len() == 0
                }
                &&& walk_ok(rest, node, i + 1, prefix, depth, expanded, force_open, assets)
            }
    }
}

/// Whether `expanded` lists the folder path `full`.
fn is_expanded(expanded: &Vec<String>, full: &String) -> (r: bool)
    ensures
        r == texts(expanded@).contains(full@),
{
    for k in 0..expanded.len()
        invariant
            forall|j: int| 0 <= j < k ==> texts(expanded@)[j] != full@,
    {
        if expanded[k] == *full {
            assert(texts(expanded@)[k as int] == full@);
            return true;
        }
    }
    false
}

/// Appends `cn` to `label` after a slash.
fn push_segment(label: &mut Vec<char>, cn: &str)
    ensures
        final(label)@ == old(label)@ + seq!['/'] + cn@,
{
    label.push('/');
    let c = to_chars(cn);
    let ghost head = label@;
    for i in 0..c.len()
        invariant
            label@ == head + c@.take(i as int),
    {
        label.push(c[i]);
        assert(c@.take(i + 1) =~= c@.take(i as int).push(c@[i as int]));
    }
    assert(c@.take(c@.len() as int) =~= c@);
}

/// The asset rows of `node` at `depth`, appended to `out`.
fn push_file_rows(node: &TreeNode, depth: usize, assets: &Vec<AssetEntry>, out: &mut Vec<Row>)
    requires
        files_below(*node, assets@.len()),
    ensures
        exists|added: Seq<Row>|
            final(out)@ == old(out)@ + added && file_rows_ok(
                rows_view(added),
                node.files@,
                assets@,
                depth as nat,
            ),
{
    let mut labelled: Vec<(String, usize)> = Vec::new();
    for k in 0..node.files.len()
        invariant
            files_below(*node, assets@.len()),
            labelled@.len() == k,
            forall|j: int|
                0 <= j < k ==> (#[trigger] labelled@[j]).0@ == label_of(assets@[node.files@[j] as int])
                    && labelled@[j].1 == node.files@[j],
    {
        let idx = node.files[k];
        labelled.push((file_label(&assets[idx]), idx));
    }
    let ghost inp = labelled@;
    let sorted = sort_labelled(labelled);
    let ghost perm = choose|perm: Seq<int>| rearranged(sorted@, inp, perm);
    let ghost before = out@;
    for k in 0..sorted.len()
        invariant
            out@.len() == before.len() + k,
            out@.take(before.len() as int) == before,
            forall|j: int|
                0 <= j < k ==> row_view(#[trigger] out@[before.len() + j]) == (RowView::File {
                    asset_idx: sorted@[j].1,
                    label: sorted@[j].0@,
                    depth: depth as nat,
                }),
    {
        let ghost prev = out@;
        out.push(Row::File { asset_idx: sorted[k].1, label: sorted[k].0.clone(), depth });
        assert(out@.take(before.len() as int) =~= prev.take(before.len() as int));
        assert forall|j: int| 0 <= j < k + 1 implies row_view(#[trigger] out@[before.len() + j])
            == (RowView::File { asset_idx: sorted@[j].1, label: sorted@[j].0@, depth: depth as nat }) by {
            if j < k {
                assert(out@[before.len() + j] == prev[before.len() + j]);
            }
        }
    }
    let ghost added = out@.skip(before.len() as int);
    proof {
        assert(out@ =~= before + added);
        let rows = rows_view(added);
        assert forall|k: int| 0 <= k < rows.len() implies #[trigger] rows[k] == (RowView::File {
            asset_idx: node.files@[perm[k]],
            label: label_of(assets@[node.files@[perm[k]] as int]),
            depth: depth as nat,
        }) by {
            assert(added[k] == out@[before.len() + k]);
            assert(sorted@[k] == inp[perm[k]]);
        }
        assert forall|a: int, b: int| 0 <= a < b < rows.len() implies !label_lt(
            file_key(#[trigger] rows[b]),
            file_key(#[trigger] rows[a]),
        ) by {
            assert(added[a] == out@[before.len() + a]);
            assert(added[b] == out@[before.len() + b]);
            assert(file_key(rows[a]) == label_key(sorted@[a]));
            assert(file_key(rows[b]) == label_key(sorted@[b]));
        }
        assert(file_rows_ok(rows, node.files@, assets@, depth as nat));
    }
}

/// The rows of the asset tree below `node` (whose folder path is `prefix`)
/// at `depth`, appended to `out`: its subfolders in name order, each
/// merged with the single subfolders below it and followed by its own rows
/// when it is open (listed in `expanded`, or all when `force_open`), then
/// its assets in label order.
#[verifier::spinoff_prover]
pub fn walk_tree(
    node: &TreeNode,
    prefix: &str,
    depth: usize,
    expanded: &Vec<String>,
    force_open: bool,
    assets: &Vec<AssetEntry>,
    out: &mut Vec<Row>,
)
    requires
        within_depth(*node, (usize::MAX - depth) as nat),
        files_below(*node, assets@.len()),
    ensures
        exists|added: Seq<Row>|
            final(out)@ == old(out)@ + added && walk_ok(
                rows_view(added),
                *node,
                0,
                prefix@,
                depth as nat,
                texts(expanded@),
                force_open,
                assets@,
            ),
    decreases *node,
{
    let ghost start = out@;
    let ghost ex = texts(expanded@);
    let n = node.children.len();
    assert(out@.skip(start.len() as int) =~= Seq::<Row>::empty());
    for i in 0..n
        invariant
            n == node.children@.len(),
            within_depth(*node, (usize::MAX - depth) as nat),
            files_below(*node, assets@.len()),
            ex == texts(expanded@),
            out@.len() >= start.len(),
            out@.take(start.len() as int) == start,
            forall|rest: Seq<RowView>|
                walk_ok(rest, *node, i as int, prefix@, depth as nat, ex, force_open, assets@) ==> #[trigger] walk_ok(
                    rows_view(out@.skip(start.len() as int)) + rest,
                    *node,
                    0,
                    prefix@,
                    depth as nat,
                    ex,
                    force_open,
                    assets@,
                ),
    {
        let entry = &node.children[i];
        let mut label = to_chars(entry.0.as_str());
        let mut full = join(prefix, entry.0.as_str());
        let mut cur: &TreeNode = &entry.1;
        let ghost target = compress(entry.0@, joined(prefix@, entry.0@), entry.1);
        while cur.files.len() == 0 && cur.children.len() == 1
            invariant
                compress(label@, full@, *cur) == target,
            decreases *cur,
        {
            let next = &cur.children[0];
            proof {
                assert(decreases_to!(*cur => next.1)) by {
                    assert(decreases_to!(*cur => cur.children));
                    assert(decreases_to!(cur.children => cur.children@));
                    assert(decreases_to!(cur.children@ => cur.children@[0]));
                    assert(decreases_to!(cur.children@[0] => cur.children@[0].1));
                }
            }
            push_segment(&mut label, next.0.as_str());
            full = join(full.as_str(), next.0.as_str());
            cur = &next.1;
        }
        assert(target == (label@, full@, *cur));
        let open = force_open || is_expanded(expanded, &full);
        let ghost before = out@;
        out.push(Row::Folder { path: full.clone(), label: string_from_chars(&label), depth, expanded: open });
        let ghost row = folder_row(*node, i as int, prefix@, depth as nat, ex, force_open);
        assert(row_view(out@.last()) == row);
        let ghost mid = out@;
        if open {
            proof {
                assert(within_depth(entry.1, (usize::MAX - depth - 1) as nat));
                lemma_compress_bounds(entry.0@, joined(prefix@, entry.0@), entry.1, (usize::MAX - depth - 1) as nat, assets@.len());
                lemma_compress_below(entry.0@, joined(prefix@, entry.0@), entry.1);
                assert(decreases_to!(*node => entry.1)) by {
                    assert(decreases_to!(*node => node.children));
                    assert(decreases_to!(node.children => node.children@));
                    assert(decreases_to!(node.children@ => node.children@[i as int]));
                    assert(decreases_to!(node.children@[i as int] => node.children@[i as int].1));
                }
            }
            walk_tree(cur, full.as_str(), depth + 1, expanded, force_open, assets, out);
        }
        proof {
            let sub = out@.skip(mid.len() as int);
            assert(out@ =~= mid + sub);
            if !open {
                assert(sub.len() == 0);
            }
            let sub_rows = rows_view(sub);
            let done = rows_view(before.skip(start.len() as int));
            let c = compress(entry.0@, joined(prefix@, entry.0@), entry.1);
            assert(c == (label@, full@, *cur));
            assert(open == (force_open || ex.contains(c.1)));
            if open {
                let added = choose|added: Seq<Row>| out@ == mid + added && walk_ok(
                    rows_view(added),
                    *cur,
                    0,
                    full@,
                    (depth + 1) as nat,
                    ex,
                    force_open,
                    assets@,
                );
                assert(sub =~= added);
                assert(walk_ok(sub_rows, c.2, 0, c.1, depth as nat + 1, ex, force_open, assets@));
            }
            assert(entry == node.children@[i as int]);
            assert(rows_view(out@.skip(start.len() as int)) =~= done + seq![row] + sub_rows) by {
                assert(out@.skip(start.len() as int) =~= before.skip(start.len() as int) + seq![mid.last()] + sub);
            }
            assert forall|rest: Seq<RowView>|
                walk_ok(rest, *node, i + 1, prefix@, depth as nat, ex, force_open, assets@) implies #[trigger] walk_ok(
                rows_view(out@.skip(start.len() as int)) + rest,
                *node,
                0,
                prefix@,
                depth as nat,
                ex,
                force_open,
                assets@,
            ) by {
                let x = seq![row] + sub_rows + rest;
                assert(x == seq![folder_row(*node, i as int, prefix@, depth as nat, ex, force_open)] + sub_rows + rest);
                assert({
                    &&& x == seq![folder_row(*node, i as int, prefix@, depth as nat, ex, force_open)] + sub_rows + rest
                    &&& if open {
                        walk_ok(sub_rows, c.2, 0, c.1, depth as nat + 1, ex, force_open, assets@)
                    } else {
                        sub_rows.len() == 0
                    }
                    &&& walk_ok(rest, *node, i + 1, prefix@, depth as nat, ex, force_open, assets@)
                });
                assert(walk_ok(x, *node, i as int, prefix@, depth as nat, ex, force_open, assets@));
                assert(done + x =~= rows_view(out@.skip(start.len() as int)) + rest);
            }
            assert(out@.take(start.len() as int) =~= before.take(start.len() as int));
        }
    }
    let ghost before_files = out@;
    push_file_rows(node, depth, assets, out);
    proof {
        let added = choose|added: Seq<Row>| out@ == before_files + added && file_rows_ok(
            rows_view(added),
            node.files@,
            assets@,
            depth as nat,
        );
        assert(walk_ok(rows_view(added), *node, n as int, prefix@, depth as nat, ex, force_open, assets@));
        assert(rows_view(out@.skip(start.len() as int)) =~= rows_view(before_files.skip(start.len() as int)) + rows_view(added)) by {
            assert(out@.skip(start.len() as int) =~= before_files.skip(start.len() as int) + added);
        }
        assert(out@ =~= start + out@.skip(start.len() as int));
    }
}

/// The folder tree of the assets the search text `input` finds, and whether
/// a search is active.
pub fn rebuild_tree(assets: &Vec<AssetEntry>, input: &str) -> (r: (TreeNode, bool))
    ensures
        tree_of(r.0, assets@, found_assets(assets@, search_query(input@))),
        within_depth(r.0, usize::MAX as nat),
        files_below(r.0, assets@.len()),
        r.1 == (search_query(input@).len() > 0),
{
    let (indices, active) = search_assets(assets, input);
    (build_tree(assets, &indices), active)
}

/// The rows shown for the asset tree `tree`: every folder open when a search
/// is active, else those listed in `expanded`.
pub fn rebuild_visible(tree: &TreeNode, expanded: &Vec<String>, search_active: bool, assets: &Vec<AssetEntry>) -> (rows: Vec<Row>)
    requires
        within_depth(*tree, usize::MAX as nat),
        files_below(*tree, assets@.len()),
    ensures
        walk_ok(rows_view(rows@), *tree, 0, Seq::empty(), 0, texts(expanded@), search_active, assets@),
{
    let mut out: Vec<Row> = Vec::new();
    let empty = String::new();
    walk_tree(tree, empty.as_str(), 0, expanded, search_active, assets, &mut out);
    proof {
        let added = choose|added: Seq<Row>|
            out@ == Seq::<Row>::empty() + added && walk_ok(
                rows_view(added),
                *tree,
                0,
                empty@,
                0,
                texts(expanded@),
                search_active,
                assets@,
            );
        assert(out@ =~= added);
        assert(empty@ =~= Seq::<char>::empty());
    }
    out
}

/// No text is listed twice.
pub open spec fn no_repeats(s: Seq<Seq<char>>) -> bool {
    forall|i: int, j: int| 0 <= i < j < s.len() ==> s[i] != s[j]
}

/// Opens the folder `path` when it is closed and closes it when it is open.
pub fn toggle_folder(expanded: &mut Vec<String>, path: &str)
    requires
        no_repeats(texts(old(expanded)@)),
    ensures
        no_repeats(texts(final(expanded)@)),
        forall|p: Seq<char>|
            #[trigger] texts(final(expanded)@).contains(p) <==> (texts(old(expanded)@).contains(p) != (p
                == path@)),
{
    let ghost before = texts(expanded@);
    let target = string_from_chars(&to_chars(path));
    let n = expanded.len();
    for k in 0..n
        invariant
            n == expanded@.len(),
            n == before.len(),
            before == texts(old(expanded)@),
            texts(expanded@) == before,
            no_repeats(before),
            target@ == path@,
            forall|j: int| 0 <= j < k ==> before[j] != path@,
    {
        if expanded[k] == target {
            let ghost old_v = expanded@;
            expanded.remove(k);
            proof {
                assert(texts(expanded@) =~= before.remove(k as int));
                assert(before[k as int] == path@);
                assert forall|i: int, j: int| 0 <= i < j < texts(expanded@).len() implies texts(expanded@)[i]
                    != texts(expanded@)[j] by {
                    let ii = if i < k { i } else { i + 1 };
                    let jj = if j < k { j } else { j + 1 };
                    assert(texts(expanded@)[i] == before[ii]);
                    assert(texts(expanded@)[j] == before[jj]);
                }
                assert forall|p: Seq<char>| #[trigger] texts(expanded@).contains(p) <==> (before.contains(p) != (p
                    == path@)) by {
                    if texts(expanded@).contains(p) {
                        let j = choose|j: int| 0 <= j < texts(expanded@).len() && texts(expanded@)[j] == p;
                        if j < k {
                            assert(before[j] == p);
                            assert(before[j] != before[k as int]);
                        } else {
                            assert(before[j + 1] == p);
                            assert(before[k as int] != before[j + 1]);
                        }
                    }
                    if before.contains(p) && p != path@ {
                        let j = choose|j: int| 0 <= j < before.len() && before[j] == p;
                        if j < k {
                            assert(texts(expanded@)[j] == p);
                        } else if j > k {
                            assert(texts(expanded@)[j - 1] == p);
                        }
                    }
                }
            }
            return;
        }
    }
    expanded.push(target);
    proof {
        assert(texts(expanded@) =~= before.push(path@));
        assert(!before.contains(path@));
        assert forall|p: Seq<char>| #[trigger] texts(expanded@).contains(p) <==> (before.contains(p) != (p
            == path@)) by {
            if texts(expanded@).contains(p) {
                let j = choose|j: int| 0 <= j < texts(expanded@).len() && texts(expanded@)[j] == p;
                if j < before.len() {
                    assert(before[j] == p);
                }
            }
            if before.contains(p) {
                let j = choose|j: int| 0 <= j < before.len() && before[j] == p;
                assert(texts(expanded@)[j] == p);
            }
            if p == path@ {
                assert(texts(expanded@)[before.len() as int] == p);
            }
        }
    }
}

/// The path id of the selected asset, when one is selected.
pub fn selected_path_id(selected: Option<usize>, assets: &Vec<AssetEntry>) -> (r: Option<i64>)
    ensures
        r == match selected {
            Some(i) => if i < assets@.len() {
                Some(assets@[i as int].path_id)
            } else {
                None
            },
            None => None,
        },
{
    match selected {
        Some(i) => if i < assets.len() {
            Some(assets[i].path_id)
        } else {
            None
        },
        None => None,
    }
}

/// How many thumbnails the asset browser keeps.
pub const THUMB_CAP: usize = 512;

/// The thumbnails the asset browser keeps, by path id, and the order they
/// came in.
pub struct ThumbCache<V> {
    pub thumbs: HashMap<i64, V>,
    pub order: VecDeque<i64>,
}

/// The path ids kept after `path_id` is stored: one more at the end when it
/// is new, the oldest dropped beyond `THUMB_CAP`.
pub open spec fn kept_order(order: Seq<i64>, known: bool, path_id: i64) -> Seq<i64> {
    let all = if known {
        order
    } else {
        order.push(path_id)
    };
    if all.len() > THUMB_CAP {
        all.skip(all.len() - THUMB_CAP)
    } else {
        all
    }
}

/// The path ids dropped when `path_id` is stored, oldest first.
pub open spec fn dropped_order(order: Seq<i64>, known: bool, path_id: i64) -> Seq<i64> {
    let all = if known {
        order
    } else {
        order.push(path_id)
    };
    if all.len() > THUMB_CAP {
        all.take(all.len() - THUMB_CAP)
    } else {
        Seq::empty()
    }
}

impl<V> ThumbCache<V> {
    /// At most `THUMB_CAP` thumbnails, each path id listed once in the
    /// order, and the order lists exactly the stored path ids.
    pub open spec fn well_formed(&self) -> bool {
        &&& self.order@.len() <= THUMB_CAP
        &&& self.order@.no_duplicates()
        &&& forall|k: i64| #[trigger] self.thumbs@.contains_key(k) <==> self.order@.contains(k)
    }

    /// An empty cache.
    pub fn new() -> (c: Self)
        ensures
            c.well_formed(),
            c.thumbs@ == Map::<i64, V>::empty(),
    {
        ThumbCache { thumbs: HashMap::new(), order: VecDeque::new() }
    }

    /// Stores the thumbnail of `path_id`, dropping the oldest beyond
    /// `THUMB_CAP`; the dropped path ids are handed back with their
    /// thumbnails, oldest first.
    #[verifier::spinoff_prover]
    pub fn store(&mut self, path_id: i64, image: V) -> (dropped: Vec<(i64, V)>)
        requires
            old(self).well_formed(),
        ensures
            final(self).well_formed(),
            final(self).order@ == kept_order(old(self).order@, old(self).thumbs@.contains_key(path_id), path_id),
            final(self).thumbs@ == old(self).thumbs@.insert(path_id, image).remove_keys(
                dropped_order(old(self).order@, old(self).thumbs@.contains_key(path_id), path_id).to_set(),
            ),
            dropped@ == dropped_order(old(self).order@, old(self).thumbs@.contains_key(path_id), path_id).map_values(
                |k: i64| (k, old(self).thumbs@.insert(path_id, image)[k]),
            ),
    {
        broadcast use vstd::std_specs::hash::group_hash_axioms;
        let ghost known = self.thumbs@.contains_key(path_id);
        let ghost stored = self.thumbs@.insert(path_id, image);
        let ghost all = if known {
            self.order@
        } else {
            self.order@.push(path_id)
        };
        let previous = self.thumbs.insert(path_id, image);
        if previous.is_none() {
            self.order.push_back(path_id);
        }
        assert(self.order@ == all);
        let mut dropped: Vec<(i64, V)> = Vec::new();
        proof {
            assert(all.no_duplicates()) by {
                if !known {
                    assert forall|i: int, j: int| 0 <= i < all.len() && 0 <= j < all.len() && i != j implies all[i] != all[j] by {
                        if i == all.len() - 1 {
                            assert(old(self).order@.contains(all[j]));
                        } else if j == all.len() - 1 {
                            assert(old(self).order@.contains(all[i]));
                        }
                    }
                }
            }
            assert(self.thumbs@ == stored);
            assert forall|k: i64| #[trigger] stored.contains_key(k) <==> all.contains(k) by {
                if all.contains(k) && k != path_id {
                    let j = choose|j: int| 0 <= j < all.len() && all[j] == k;
                    if !known {
                        assert(j < old(self).order@.len());
                        assert(old(self).order@[j] == k);
                    }
                }
                if !known && k == path_id {
                    assert(all[all.len() - 1] == k);
                }
                if old(self).order@.contains(k) && !known {
                    let j = choose|j: int| 0 <= j < old(self).order@.len() && old(self).order@[j] == k;
                    assert(all[j] == k);
                }
            }
        }
        while self.order.len() > THUMB_CAP
            invariant
                all.no_duplicates(),
                all.len() <= THUMB_CAP + 1,
                self.order@.len() >= THUMB_CAP || self.order@.len() == all.len(),
                self.order@ == all.skip(all.len() - self.order@.len()),
                self.order@.len() <= all.len(),
                dropped@ == all.take(all.len() - self.order@.len()).map_values(|k: i64| (k, stored[k])),
                self.thumbs@ == stored.remove_keys(all.take(all.len() - self.order@.len()).to_set()),
                forall|k: i64| #[trigger] stored.contains_key(k) <==> all.contains(k),
            decreases self.order@.len(),
        {
            let ghost before = self.order@;
            let ghost cut = all.len() - before.len();
            match self.order.pop_front() {
                Some(first) => {
                    assert(first == all[cut]);
                    assert(all.take(cut + 1) =~= all.take(cut).push(first));
                    assert(self.order@ =~= all.skip(cut + 1));
                    assert(stored.contains_key(first)) by {
                        assert(all.contains(first));
                    }
                    assert(!all.take(cut).contains(first)) by {
                        if all.take(cut).contains(first) {
                            let j = choose|j: int| 0 <= j < cut && all.take(cut)[j] == first;
                            assert(all[j] == all[cut]);
                        }
                    }
                    let ghost map_before = self.thumbs@;
                    match self.thumbs.remove(&first) {
                        Some(v) => {
                            assert(map_before.contains_key(first));
                            assert(v == stored[first]);
                            dropped.push((first, v));
                        },
                        None => {
                            assert(!map_before.contains_key(first));
                        },
                    }
                    assert(self.thumbs@ =~= stored.remove_keys(all.take(cut + 1).to_set()));
                    assert(dropped@ =~= all.take(cut + 1).map_values(|k: i64| (k, stored[k])));
                },
                None => {},
            }
        }
        proof {
            let cut = all.len() - self.order@.len();
            assert(self.order@.no_duplicates()) by {
                assert forall|i: int, j: int| 0 <= i < self.order@.len() && 0 <= j < self.order@.len() && i != j implies self.order@[i] != self.order@[j] by {
                    assert(self.order@[i] == all[i + cut]);
                    assert(self.order@[j] == all[j + cut]);
                }
            }
            assert forall|k: i64| #[trigger] self.thumbs@.contains_key(k) <==> self.order@.contains(k) by {
                if self.order@.contains(k) {
                    let j = choose|j: int| 0 <= j < self.order@.len() && self.order@[j] == k;
                    assert(all[j + cut] == k);
                    assert(all.contains(k));
                    assert(!all.take(cut).to_set().contains(k)) by {
                        if all.take(cut).contains(k) {
                            let m = choose|m: int| 0 <= m < cut && all.take(cut)[m] == k;
                            assert(all[m] == all[j + cut]);
                        }
                    }
                }
                if self.thumbs@.contains_key(k) {
                    assert(stored.contains_key(k));
                    assert(all.contains(k));
                    let j = choose|j: int| 0 <= j < all.len() && all[j] == k;
                    if j < cut {
                        assert(all.take(cut)[j] == k);
                        assert(all.take(cut).to_set().contains(k));
                    } else {
                        assert(self.order@[j - cut] == k);
                    }
                }
            }
            if all.len() > THUMB_CAP {
                assert(self.order@.len() == THUMB_CAP);
            }
        }
        dropped
    }
}

/// The thumbnail just stored is kept, under its path id, and is not among
/// those dropped; at most `THUMB_CAP` path ids stay listed.
pub proof fn lemma_store_keeps_newest<V>(c: ThumbCache<V>, path_id: i64, image: V)
    requires
        c.well_formed(),
    ensures
        ({
            let known = c.thumbs@.contains_key(path_id);
            let gone = dropped_order(c.order@, known, path_id);
            let kept = c.thumbs@.insert(path_id, image).remove_keys(gone.to_set());
            &&& !gone.contains(path_id)
            &&& kept.contains_key(path_id)
            &&& kept[path_id] == image
            &&& kept_order(c.order@, known, path_id).len() <= THUMB_CAP
            &&& kept_order(c.order@, known, path_id).contains(path_id)
        }),
{
    let known = c.thumbs@.contains_key(path_id);
    let all = if known {
        c.order@
    } else {
        c.order@.push(path_id)
    };
    let gone = dropped_order(c.order@, known, path_id);
    if known {
        assert(c.order@.contains(path_id));
        assert(gone.len() == 0);
    } else {
        assert(!c.order@.contains(path_id));
        assert(all[all.len() - 1] == path_id);
        if all.len() > THUMB_CAP {
            assert(all.len() == THUMB_CAP + 1);
            assert(gone =~= seq![all[0]]);
            assert(all[0] == c.order@[0]);
            assert(c.order@.contains(c.order@[0]));
            let kept = all.skip(all.len() - THUMB_CAP);
            assert(kept[kept.len() - 1] == path_id);
        } else {
            assert(gone.len() == 0);
        }
    }
    assert(!gone.to_set().contains(path_id));
}

} // verus!
