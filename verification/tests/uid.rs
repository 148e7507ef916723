use hsr_frontend::uid::{
    anchor_label, answer_uids, parse_uid, default_main_affix, default_rank, latest_answer, read_profile,
    to_display_avatars, AvatarDataRsp, AvatarPathData, AvatarTrees, BagEquipment, BagRelic, BagRsp,
    DetailInfo, DetailRequest, DisplayAvatar, EquipRelic, OwnedAvatar, PathSkillNode, PollAction,
    ProfileError, RecordInfo, SubAffix, TreeAnchor,
};

#[test]
fn defaults() {
    assert_eq!(default_rank(), 1);
    assert_eq!(default_main_affix(), 1);
    assert_eq!(anchor_label(3), "Point03");
    assert_eq!(anchor_label(12), "Point12");
}

fn avatar(id: u32) -> DisplayAvatar {
    DisplayAvatar { avatar_id: id, ..Default::default() }
}

#[test]
fn profile_reading() {
    let info = DetailInfo {
        uid: 100,
        nickname: "Trail".to_string(),
        level: 70,
        world_level: 6,
        signature: "hi".to_string(),
        friend_count: 3,
        birthday: Some(101),
        record_info: RecordInfo { achievement_count: 5, avatar_count: 6, lightcone_count: 7, su_count: 8, ..Default::default() },
        display_avatar_list: vec![avatar(1), avatar(2)],
        assist_avatar_list: vec![avatar(3)],
        ..Default::default()
    };
    let (p, raw) = read_profile(info).unwrap();
    assert_eq!(p.nickname, "Trail");
    assert_eq!((p.uid, p.level, p.world_level, p.friend_count), (100, 70, 6, 3));
    assert_eq!(p.birthday, Some(101));
    assert_eq!((p.achievement_count, p.avatar_count, p.lightcone_count, p.su_count), (5, 6, 7, 8));
    let order: Vec<(bool, u32)> = raw.iter().map(|(a, d)| (*a, d.avatar_id)).collect();
    assert_eq!(order, vec![(true, 3), (false, 1), (false, 2)]);
    assert_eq!(read_profile(DetailInfo::default()).unwrap_err(), ProfileError::EmptyResponse);
    let only_uid = DetailInfo { uid: 1, ..Default::default() };
    assert!(read_profile(only_uid).unwrap().1.is_empty());
}

#[test]
fn answers_and_polling() {
    let pending = vec![
        "{\"detail_info\":{\"uid\":7}}".to_string(),
        "not json".to_string(),
        "{\"detail_info\":{\"uid\":9}}".to_string(),
        "{\"detail_info\":{\"uid\":7,\"x\":1}}".to_string(),
    ];
    let uids = answer_uids(&pending);
    assert_eq!(uids, vec![Some(7), None, Some(9), Some(7)]);
    assert_eq!(latest_answer(&uids, 7), Some(3));
    assert_eq!(latest_answer(&uids, 8), None);

    let mut req = DetailRequest { awaiting_response: true, awaiting_uid: Some(7), await_ticks: 0 };
    assert_eq!(req.poll(&uids), PollAction::Load(3));
    assert!(!req.awaiting_response);
    assert_eq!(req.poll(&uids), PollAction::Idle);

    let mut req = DetailRequest { awaiting_response: true, awaiting_uid: Some(8), await_ticks: 38 };
    assert_eq!(req.poll(&uids), PollAction::Idle);
    assert_eq!(req.await_ticks, 39);
    assert_eq!(req.poll(&uids), PollAction::GiveUp);
    assert!(!req.awaiting_response && req.awaiting_uid.is_none());
}

#[test]
fn owned_avatars_assembled() {
    let data = AvatarDataRsp {
        avatar_list: vec![
            OwnedAvatar { base_avatar_id: 8001, cur_multi_path_avatar_type: 8002, level: 80, promotion: 6 },
            OwnedAvatar { base_avatar_id: 1005, cur_multi_path_avatar_type: 0, level: 60, promotion: 4 },
        ],
        avatar_path_data_info_list: vec![AvatarPathData {
            avatar_id: 8002,
            rank: 2,
            path_equipment_id: 55,
            unk_enhanced_id: None,
            equip_relic_list: vec![
                EquipRelic { relic_unique_id: 900, slot: 1 },
                EquipRelic { relic_unique_id: 999, slot: 2 },
            ],
            avatar_path_skill_tree: vec![
                PathSkillNode { anchor_type: 1, level: 6 },
                PathSkillNode { anchor_type: 9, level: 1 },
            ],
        }],
    };
    let bag = BagRsp {
        update_relics_list: vec![BagRelic {
            unique_id: 900,
            tid: 61011,
            level: 15,
            main_affix_id: 1,
            belong_avatar_id: 8002,
            sub_affix_list: vec![SubAffix { affix_id: 4, cnt: 2, step: 3 }],
        }],
        update_equipments_list: vec![
            BagEquipment { unique_id: 55, tid: 23001, level: 80, promotion: 6, rank: 1, belong_avatar_id: 8002 },
            BagEquipment { unique_id: 56, tid: 21000, level: 50, promotion: 3, rank: 5, belong_avatar_id: 1005 },
        ],
    };
    let trees = vec![AvatarTrees {
        avatar_id: 8002,
        skill_trees: vec![
            TreeAnchor { id: 800201, anchor: "Point01".to_string() },
            TreeAnchor { id: 800202, anchor: "Point02".to_string() },
        ],
        skill_trees_enhanced: vec![],
    }];
    let out = to_display_avatars(&data, &bag, &trees);
    assert_eq!(out.len(), 2);
    let a = &out[0];
    assert_eq!(a.avatar_id, 8002);
    assert_eq!((a.level, a.promotion, a.rank, a.pos), (80, 6, 2, 0));
    assert_eq!(a.equipment.map(|e| e.tid), Some(23001));
    assert_eq!(a.relic_list.len(), 1);
    assert_eq!(a.relic_list[0].tid, 61011);
    assert_eq!(a.relic_list[0].slot, 1);
    assert_eq!(a.relic_list[0].sub_affix_list, vec![SubAffix { affix_id: 4, cnt: 2, step: 3 }]);
    assert_eq!(a.skilltree_list.len(), 1);
    assert_eq!((a.skilltree_list[0].point_id, a.skilltree_list[0].level), (800201, 6));
    let b = &out[1];
    assert_eq!(b.avatar_id, 1005);
    assert_eq!(b.rank, 0);
    assert_eq!(b.equipment.map(|e| e.tid), Some(21000));
    assert!(b.relic_list.is_empty());
    assert!(b.skilltree_list.is_empty());
}

#[test]
fn typed_uids() {
    assert_eq!(parse_uid(" 100000001 \n"), Some(100000001));
    assert_eq!(parse_uid("+42"), Some(42));
    assert_eq!(parse_uid("4294967295"), Some(u32::MAX));
    assert_eq!(parse_uid("4294967296"), None);
    assert_eq!(parse_uid("12a"), None);
    assert_eq!(parse_uid(""), None);
    assert_eq!(parse_uid("-1"), None);
}

#[test]
fn a_request_waits_from_the_start() {
    let mut req = DetailRequest { awaiting_response: false, awaiting_uid: None, await_ticks: 17 };
    req.begin(7);
    assert!(req.awaiting_response);
    assert_eq!(req.awaiting_uid, Some(7));
    assert_eq!(req.await_ticks, 0);
}
