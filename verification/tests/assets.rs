use hsr_frontend::assets::{
    build_tree, file_label, join, rebuild_tree, rebuild_visible, search_assets, selected_path_id,
    sort_labelled, split_segments, toggle_folder, AssetEntry, Row, ThumbCache, TreeNode, THUMB_CAP,
};

fn asset(container: &str, name: &str, path_id: i64) -> AssetEntry {
    AssetEntry { container: container.to_string(), name: name.to_string(), path_id }
}

fn sample() -> Vec<AssetEntry> {
    vec![
        asset("ui/icon/avatar/Kafka.png", "Kafka", 1),
        asset("ui/icon/avatar/Bronya.png", "Bronya", 2),
        asset("ui/bg/main.png", "main", 3),
        asset("loose.png", "loose", 4),
        asset("", "", -9),
        asset("/ui//icon/avatar/Aa.png/", "Aa", 5),
    ]
}

fn describe(rows: &[Row]) -> Vec<String> {
    rows.iter()
        .map(|r| match r {
            Row::Folder { path, label, depth, expanded } => format!("F {depth} {label} [{path}] {expanded}"),
            Row::File { asset_idx, label, depth } => format!("A {depth} {label} #{asset_idx}"),
        })
        .collect()
}

#[test]
fn paths_and_labels() {
    let segs: Vec<String> = split_segments(&"/a//b/c/".chars().collect()).iter().map(|s| s.iter().collect()).collect();
    assert_eq!(segs, vec!["a", "b", "c"]);
    assert_eq!(join("", "a"), "a");
    assert_eq!(join("a/b", "c"), "a/b/c");
    let a = sample();
    assert_eq!(file_label(&a[0]), "Kafka.png");
    assert_eq!(file_label(&a[5]), "Aa.png");
    assert_eq!(file_label(&asset("///", "nm", 1)), "nm");
    assert_eq!(file_label(&a[4]), "#-9");
}

#[test]
fn search_by_container_or_name() {
    let a = sample();
    assert_eq!(search_assets(&a, "   "), (vec![0, 1, 2, 3, 4, 5], false));
    assert_eq!(search_assets(&a, " AVATAR "), (vec![0, 1, 5], true));
    assert_eq!(search_assets(&a, "loose"), (vec![3], true));
}

#[test]
fn tree_structure() {
    let a = sample();
    let tree: TreeNode = build_tree(&a, &vec![0, 1, 2, 3, 4, 5]);
    assert_eq!(tree.files, vec![3, 4]);
    assert_eq!(tree.children.len(), 1);
    assert_eq!(tree.children[0].0, "ui");
    let ui = &tree.children[0].1;
    let names: Vec<&str> = ui.children.iter().map(|(n, _)| n.as_str()).collect();
    assert_eq!(names, vec!["bg", "icon"]);
    let avatar = &ui.children[1].1.children[0].1;
    assert_eq!(avatar.files, vec![0, 1, 5]);
}

#[test]
fn visible_rows_merge_single_folders() {
    let a = sample();
    let tree = build_tree(&a, &vec![0, 1, 2, 3, 4, 5]);
    let closed = rebuild_visible(&tree, &vec![], false, &a);
    assert_eq!(describe(&closed), vec!["F 0 ui [ui] false", "A 0 #-9 #4", "A 0 loose.png #3"]);
    let expanded = vec!["ui".to_string(), "ui/icon/avatar".to_string()];
    let open = rebuild_visible(&tree, &expanded, false, &a);
    assert_eq!(
        describe(&open),
        vec![
            "F 0 ui [ui] true",
            "F 1 bg [ui/bg] false",
            "F 1 icon/avatar [ui/icon/avatar] true",
            "A 2 Aa.png #5",
            "A 2 Bronya.png #1",
            "A 2 Kafka.png #0",
            "A 0 #-9 #4",
            "A 0 loose.png #3",
        ]
    );
    let all = rebuild_visible(&tree, &vec![], true, &a);
    assert_eq!(all.len(), 9);
}

#[test]
fn search_tree() {
    let a = sample();
    let (tree, active) = rebuild_tree(&a, "kafka");
    assert!(active);
    let rows = rebuild_visible(&tree, &vec![], active, &a);
    assert_eq!(describe(&rows), vec!["F 0 ui/icon/avatar [ui/icon/avatar] true", "A 1 Kafka.png #0"]);
}

#[test]
fn labelled_sort() {
    let sorted = sort_labelled(vec![("b".to_string(), 2), ("a".to_string(), 9), ("b".to_string(), 1)]);
    assert_eq!(sorted, vec![("a".to_string(), 9), ("b".to_string(), 1), ("b".to_string(), 2)]);
}

#[test]
fn folders_toggle() {
    let mut expanded = vec!["x".to_string()];
    toggle_folder(&mut expanded, "ui");
    assert_eq!(expanded, vec!["x".to_string(), "ui".to_string()]);
    toggle_folder(&mut expanded, "x");
    assert_eq!(expanded, vec!["ui".to_string()]);
}

#[test]
fn selection_path_id() {
    let a = sample();
    assert_eq!(selected_path_id(Some(2), &a), Some(3));
    assert_eq!(selected_path_id(Some(20), &a), None);
    assert_eq!(selected_path_id(None, &a), None);
}

#[test]
fn thumbnails_are_capped() {
    let mut cache: ThumbCache<i64> = ThumbCache::new();
    for id in 0..THUMB_CAP as i64 {
        assert!(cache.store(id, id * 10).is_empty());
    }
    assert!(cache.store(5, 55).is_empty());
    assert_eq!(cache.thumbs.get(&5), Some(&55));
    assert_eq!(cache.store(1000, 1).as_slice(), &[(0, 0)]);
    assert_eq!(cache.thumbs.len(), THUMB_CAP);
    assert!(!cache.thumbs.contains_key(&0));
    assert_eq!(cache.order.front(), Some(&1));
    assert_eq!(cache.order.back(), Some(&1000));
}
