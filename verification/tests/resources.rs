use hsr_frontend::resources::{
    additional_skill_level, build_skills, AvatarRank, AvatarSkill, SkillTreeInfo, is_percent, recommend_key, replace_chars, strip_rich_text, LanguageTexts, ResourceTexts,
    StatProperty, STAT_ICON_PREFIX,
};
use hsr_frontend::text::to_chars;
use hsr_frontend::uid::SkillTreePoint;

fn texts() -> ResourceTexts {
    ResourceTexts {
        textmaps: vec![
            LanguageTexts {
                language: "EN".to_string(),
                texts: vec![
                    ("1".to_string(), "<color=#fff>HP</color>".to_string()),
                    ("2".to_string(), "Only EN".to_string()),
                    ("-5".to_string(), "Neg".to_string()),
                    ("007".to_string(), "Padded".to_string()),
                ],
            },
            LanguageTexts {
                language: "CN".to_string(),
                texts: vec![
                    ("1".to_string(), "生命值".to_string()),
                    ("3".to_string(), "".to_string()),
                    ("2".to_string(), "".to_string()),
                ],
            },
        ],
        stat_properties: vec![
            (
                "HPDelta".to_string(),
                StatProperty { name: 1, name_skill_tree: None, icon_name: "IconMaxHP.png".to_string() },
            ),
            (
                "NoIcon".to_string(),
                StatProperty { name: 42, name_skill_tree: Some(1), icon_name: "".to_string() },
            ),
        ],
    }
}

#[test]
fn percent_properties() {
    assert!(is_percent("HPAddedRatio"));
    assert!(is_percent("CriticalChanceBase"));
    assert!(!is_percent("HPDelta"));
}

#[test]
fn recommendation_keys() {
    assert_eq!(recommend_key(8002), 8001);
    assert_eq!(recommend_key(8010), 8009);
    assert_eq!(recommend_key(8001), 8001);
    assert_eq!(recommend_key(1005), 1005);
}

#[test]
fn rich_text_stripped() {
    assert_eq!(strip_rich_text("<b>Bold</b> and <i>it</i>"), "Bold and it");
    assert_eq!(strip_rich_text("a > b"), "a > b");
    assert_eq!(strip_rich_text("x<unterminated"), "x");
}

#[test]
fn replacing_text() {
    let r = replace_chars(&to_chars("a.png.png"), &to_chars(".png"), &to_chars(".webp"));
    assert_eq!(r.iter().collect::<String>(), "a.webp.webp");
}

#[test]
fn texts_fall_back_by_language() {
    let t = texts();
    assert_eq!(t.text("EN", 1), "HP");
    assert_eq!(t.text("CN", 1), "生命值");
    assert_eq!(t.text("JP", 1), "生命值");
    assert_eq!(t.text("CN", 2), "Only EN");
    assert_eq!(t.text("CN", 3), "#3");
    assert_eq!(t.text("EN", -5), "Neg");
    assert_eq!(t.text("EN", -6), "#-6");
    assert_eq!(t.text("EN", 7), "#7");
}

#[test]
fn stat_names_and_icons() {
    let t = texts();
    assert_eq!(t.stat_name("EN", "HPDelta"), "HP");
    assert_eq!(t.stat_name("EN", "Unknown"), "Unknown");
    assert_eq!(t.stat_name("EN", "NoIcon"), "#42");
    assert_eq!(t.stat_icon_url("HPDelta"), format!("{STAT_ICON_PREFIX}IconMaxHP.webp"));
    assert_eq!(t.stat_icon_url("NoIcon"), "");
    assert_eq!(t.stat_icon_url("Unknown"), "");
}

fn rank(r: u32, adds: &[(&str, u32)]) -> AvatarRank {
    AvatarRank {
        id: r,
        rank: r,
        name: 0,
        skill_add_level_map: adds.iter().map(|(k, v)| (k.to_string(), *v)).collect(),
    }
}

fn tree(id: u32, anchor: &str, max: u32, skills: &[u32]) -> SkillTreeInfo {
    SkillTreeInfo { id, anchor: anchor.to_string(), max_level: max, level_up_skills: skills.to_vec() }
}

#[test]
fn eidolon_skill_levels() {
    let ranks = vec![rank(3, &[("101", 2), ("102", 1)]), rank(5, &[("101", 2)]), rank(1, &[("103", 1)])];
    assert_eq!(additional_skill_level(&ranks, 4, 101), 2);
    assert_eq!(additional_skill_level(&ranks, 6, 101), 4);
    assert_eq!(additional_skill_level(&ranks, 0, 101), 0);
    assert_eq!(additional_skill_level(&ranks, 1, 103), 1);
    assert_eq!(additional_skill_level(&ranks, 6, 999), 0);
}

#[test]
fn skill_list_of_an_avatar() {
    let trees = vec![
        tree(11, "Point02", 10, &[102]),
        tree(10, "Point01", 6, &[101]),
        tree(19, "Point19", 6, &[119]),
        tree(21, "Point21", 10, &[121]),
    ];
    let points = vec![
        SkillTreePoint { point_id: 10, level: 3 },
        SkillTreePoint { point_id: 11, level: 1 },
        SkillTreePoint { point_id: 10, level: 5 },
        SkillTreePoint { point_id: 19, level: 2 },
    ];
    let ranks = vec![rank(3, &[("102", 2)])];
    let skills = vec![
        ("119".to_string(), AvatarSkill { id: 119, max_level: 6, kind: String::new(), type_text: 1, name: 0 }),
        ("101".to_string(), AvatarSkill { id: 101, max_level: 6, kind: String::new(), type_text: 2, name: 0 }),
    ];
    let rows = build_skills(&trees, &points, &ranks, 3, &skills, &texts(), "EN");
    let shown: Vec<(String, u32, u32, u32)> = rows.iter().map(|l| (l.label.clone(), l.level, l.plus, l.max)).collect();
    assert_eq!(
        shown,
        vec![
            ("Basic".to_string(), 5, 0, 6),
            ("Skill".to_string(), 1, 2, 10),
            ("HP".to_string(), 2, 0, 6),
        ]
    );
    let rows = build_skills(&trees, &points, &ranks, 0, &skills, &texts(), "CN");
    assert_eq!(rows[0].label, "普攻");
    assert_eq!(rows[1].plus, 0);
}

#[test]
fn stripped_text_has_no_tags_left() {
    for s in ["a<b>c</b>d", "<unclosed tag", "x > y", "<<a>>b", "plain"] {
        let once = strip_rich_text(s);
        assert!(!once.contains('<'));
        assert_eq!(strip_rich_text(&once), once);
    }
}
