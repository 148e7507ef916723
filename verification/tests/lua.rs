use hsr_frontend::lua::toggle_lua_comment;

#[test]
fn comments_selected_lines() {
    let text = "local a = 1\n  print(a)\n\nreturn a";
    let (out, line) = toggle_lua_comment(text, 0, 14).unwrap();
    assert_eq!(out, "-- local a = 1\n  -- print(a)\n\nreturn a");
    assert_eq!(line, 0);
}

#[test]
fn uncomments_when_all_commented() {
    let text = "x\n  -- y\n--z\n";
    let (out, line) = toggle_lua_comment(text, 3, 12).unwrap();
    assert_eq!(out, "x\n  y\nz\n");
    assert_eq!(line, 1);
}

#[test]
fn mixed_lines_get_commented() {
    let text = "-- a\nb";
    let (out, _) = toggle_lua_comment(text, 0, 6).unwrap();
    assert_eq!(out, "-- -- a\n-- b");
}

#[test]
fn empty_selection_and_far_offsets() {
    let (out, line) = toggle_lua_comment("a\nb", 2, 2).unwrap();
    assert_eq!(out, "a\n-- b");
    assert_eq!(line, 1);
    let (out, line) = toggle_lua_comment("a\nb", 99, 120).unwrap();
    assert_eq!(out, "a\n-- b");
    assert_eq!(line, 1);
    let (out, line) = toggle_lua_comment("", 0, 0).unwrap();
    assert_eq!(out, "");
    assert_eq!(line, 0);
}

#[test]
fn toggling_twice_restores_the_lines() {
    let text = "local a = 1\n  -- note\n\nprint(a)";
    let (once, line) = toggle_lua_comment(text, 0, 20).unwrap();
    assert_eq!(once, "-- local a = 1\n  -- -- note\n\nprint(a)");
    assert_eq!(line, 0);
    let (twice, _) = toggle_lua_comment(&once, 0, 26).unwrap();
    assert_eq!(twice, text);
}
