use std::collections::HashSet;

use hsr_frontend::sniff_file::{DecodedPacket, PacketSource};
use hsr_frontend::sniffer::{
    all_indices, base_indices, base_position, compact_preview, filtered_indices, inspector_preview,
    apply_redecode_results, inspector_text, packet_info, redecode_snapshot, selected_packet,
    source_text, RedecodeResult,
    packet_matches_index, packet_row_cache, paired_packet_name, picker_items, preview_from,
    resolve_cmd, resolve_name, send_filtered_indices, sort_by_name, sorted_packet_names,
    PacketLists, PacketNameEntry, PacketRowCache,
};

fn packet(id: u64, cmd_id: u32, source: PacketSource, head: Vec<u8>, body_json: Option<&str>) -> DecodedPacket {
    DecodedPacket {
        id,
        cmd_id,
        source,
        name: None,
        head,
        body: vec![1, 2, 3],
        body_json: body_json.map(|s| s.to_string()),
        request_id: None,
        custom_packet: false,
    }
}

fn rows_for(packets: &[DecodedPacket]) -> Vec<PacketRowCache> {
    packets.iter().map(|p| packet_row_cache(p, None)).collect()
}

#[test]
fn name_entry_new() {
    let e = PacketNameEntry::new(1234, "GetAvatarDataCsReq".to_string());
    assert_eq!(e.cmd_id, 1234);
    assert_eq!(e.cmd_id_text, "1234");
    assert_eq!(e.name, "GetAvatarDataCsReq");
    assert_eq!(e.search_name, "getavatardatacsreq");
}

#[test]
fn resolve_cmd_number_or_name() {
    assert_eq!(resolve_cmd("42", Some(7)), Some(42));
    assert_eq!(resolve_cmd("+42", None), Some(42));
    assert_eq!(resolve_cmd("4294967296", Some(7)), Some(7));
    assert_eq!(resolve_cmd("PlayerLoginCsReq", Some(7)), Some(7));
    assert_eq!(resolve_cmd("PlayerLoginCsReq", None), None);
    assert_eq!(resolve_cmd(" 42", None), None);
}

#[test]
fn indices_up_to_len() {
    assert_eq!(all_indices(4), vec![0, 1, 2, 3]);
    assert!(all_indices(0).is_empty());
}

#[test]
fn names_sorted_stably() {
    let names = vec![(3, "b".to_string()), (1, "a".to_string()), (2, "b".to_string()), (9, "B".to_string())];
    let sorted = sort_by_name(names.clone());
    assert_eq!(
        sorted,
        vec![(9, "B".to_string()), (1, "a".to_string()), (3, "b".to_string()), (2, "b".to_string())]
    );
    let entries = sorted_packet_names(names);
    let ids: Vec<u32> = entries.iter().map(|e| e.cmd_id).collect();
    assert_eq!(ids, vec![9, 1, 3, 2]);
    assert_eq!(entries[0].search_name, "b");
    assert_eq!(entries[0].cmd_id_text, "9");
}

#[test]
fn picker_filters_then_sorts() {
    let names = vec![
        (30, "ZetaNotify".to_string()),
        (10, "AlphaReq".to_string()),
        (20, "alphaRsp".to_string()),
        (11, "Other".to_string()),
    ];
    let mut exclude = HashSet::new();
    exclude.insert(20u32);
    assert_eq!(
        picker_items(names.clone(), &exclude, "ALPHA"),
        vec![(10, "AlphaReq".to_string())]
    );
    assert_eq!(
        picker_items(names.clone(), &HashSet::new(), "1"),
        vec![(10, "AlphaReq".to_string()), (11, "Other".to_string())]
    );
    assert_eq!(picker_items(names, &exclude, "").len(), 3);
}

#[test]
fn packet_names_resolved() {
    assert_eq!(resolve_name(&Some("Own".to_string()), Some("Known".to_string()), 5), "Own");
    assert_eq!(resolve_name(&None, Some("Known".to_string()), 5), "Known");
    assert_eq!(resolve_name(&None, None, 5), "Cmd 5");
}

#[test]
fn previews() {
    assert_eq!(compact_preview("{ \"a\" : [1, 2] }"), "{\"a\":[1,2]}");
    assert_eq!(compact_preview("not   json \n here"), "not json here");
    let long = format!("\"{}\"", "x".repeat(300));
    let p = compact_preview(&long);
    assert_eq!(p.chars().count(), 223);
    assert!(p.ends_with("..."));
    assert_eq!(preview_from("a  b", None), "a b");
    assert_eq!(preview_from("ignored", Some("{}".to_string())), "{}");
    let big = format!("{{\"k\": \"{}\"}}", "y".repeat(20000));
    assert!(compact_preview(&big).starts_with("{\"k\": \"yyy"));
}

#[test]
fn row_texts() {
    let mut p = packet(1, 77, PacketSource::Client, vec![0x08, 0x05], Some("{ \"x\": 1 }"));
    p.name = None;
    let row = packet_row_cache(&p, Some("HeartBeat".to_string()));
    assert_eq!(row.cmd_id_text, "77");
    assert_eq!(row.name, "HeartBeat");
    assert_eq!(row.name_lower, "heartbeat");
    assert_eq!(row.pid_text, "5");
    assert_eq!(row.len_text, "3");
    assert_eq!(row.body_preview, "{\"x\":1}");
    let bare = packet_row_cache(&packet(2, 8, PacketSource::Server, vec![], None), None);
    assert_eq!(bare.name, "Cmd 8");
    assert_eq!(bare.body_preview, "");
}

#[test]
fn search_and_base_lists() {
    let packets = vec![
        packet(1, 100, PacketSource::Client, vec![], Some("{\"Hp\": 5}")),
        packet(2, 200, PacketSource::Server, vec![], None),
        packet(3, 300, PacketSource::Server, vec![], Some("{\"mp\": 1}")),
    ];
    let rows = rows_for(&packets);
    let mut excluded = HashSet::new();
    excluded.insert(300u32);
    assert!(packet_matches_index(&packets, &rows, 0, "hp"));
    assert!(packet_matches_index(&packets, &rows, 1, "cmd 2"));
    assert!(!packet_matches_index(&packets, &rows, 1, "hp"));
    assert!(packet_matches_index(&packets, &rows, 9, ""));
    assert!(!packet_matches_index(&packets, &rows, 9, "x"));
    assert_eq!(filtered_indices(&packets, &rows, &excluded, "HP"), vec![0]);
    assert_eq!(filtered_indices(&packets, &rows, &excluded, ""), vec![0, 1]);
    assert_eq!(filtered_indices(&packets, &rows, &HashSet::new(), "00"), vec![0, 1, 2]);
    let base = base_indices(&packets, &excluded);
    assert_eq!(base, vec![0, 1]);
    assert_eq!(base_position(&base, &packets, 2), Some(1));
    assert_eq!(base_position(&base, &packets, 3), None);
    assert_eq!(base_position(&vec![7, 0], &packets, 1), Some(1));
}

#[test]
fn send_list_search() {
    let names = vec![
        PacketNameEntry::new(5, "SceneEnterReq".to_string()),
        PacketNameEntry::new(51, "Ping".to_string()),
    ];
    assert_eq!(send_filtered_indices(&names, ""), vec![0, 1]);
    assert_eq!(send_filtered_indices(&names, "5"), vec![0, 1]);
    assert_eq!(send_filtered_indices(&names, "SCENE"), vec![0]);
    assert_eq!(send_filtered_indices(&names, "nothing"), Vec::<usize>::new());
}

#[test]
fn paired_names() {
    let mut req = packet(1, 10, PacketSource::Client, vec![0x08, 0x09], None);
    req.name = Some("GetReq".to_string());
    let rsp = packet(2, 11, PacketSource::Server, vec![0x08, 0x09], None);
    let other = packet(3, 12, PacketSource::Client, vec![0x08, 0x09], None);
    let packets = vec![req, rsp, other];
    assert_eq!(paired_packet_name(&packets, 9, PacketSource::Client, 1), "<cmd:11>");
    assert_eq!(paired_packet_name(&packets, 9, PacketSource::Server, 2), "GetReq");
    assert_eq!(paired_packet_name(&packets, 0, PacketSource::Server, 2), "-");
    assert_eq!(paired_packet_name(&packets, 4, PacketSource::Server, 2), "-");
}

#[test]
fn inspector_shows_two_hundred_lines() {
    let text: String = (0..250).map(|i| format!("line{i}\n")).collect();
    let shown = inspector_preview(&text);
    assert!(shown.ends_with("line199\n…"));
    assert_eq!(shown.lines().count(), 201);
    assert_eq!(inspector_preview("a\nb"), "a\nb");
    assert_eq!(inspector_preview(""), "");
}

#[test]
fn lists_follow_arrivals() {
    let mut packets: Vec<DecodedPacket> = Vec::new();
    let mut rows: Vec<PacketRowCache> = Vec::new();
    let mut excluded = HashSet::new();
    excluded.insert(2u32);
    let mut lists = PacketLists::new();
    lists.recompute_filtered(&packets, &rows, &excluded, "A");
    assert_eq!(lists.filtered_query, "a");
    for (i, (cmd, body)) in [(1u32, "{\"a\":1}"), (2, "{\"a\":2}"), (3, "{\"b\":3}")].iter().enumerate() {
        let p = packet(i as u64 + 1, *cmd, PacketSource::Server, vec![], Some(body));
        rows.push(packet_row_cache(&p, None));
        packets.push(p);
        lists.note_arrival(&packets, &rows, &excluded);
    }
    assert_eq!(lists.filtered_idx, vec![0]);
    assert_eq!(lists.base_idx, vec![0, 2]);
    assert_eq!(lists.filtered_idx, filtered_indices(&packets, &rows, &excluded, "a"));
    assert_eq!(lists.base_idx, base_indices(&packets, &excluded));
    lists.invalidate();
    assert!(lists.filtered_dirty && lists.base_dirty);
    lists.recompute_base(&packets, &excluded);
    assert_eq!(lists.base_idx, vec![0, 2]);
    lists.recompute_filtered(&packets, &rows, &excluded, "B");
    assert_eq!(lists.filtered_idx, vec![2]);
    lists.clear();
    assert!(lists.base_idx.is_empty() && !lists.base_dirty && lists.filtered_dirty);
}

#[test]
fn selection_finds_the_first_packet_with_the_id() {
    let packets = vec![
        packet(4, 10, PacketSource::Client, vec![], None),
        packet(7, 11, PacketSource::Server, vec![], None),
        packet(7, 12, PacketSource::Client, vec![], None),
    ];
    assert_eq!(selected_packet(&packets, Some(7)), Some(1));
    assert_eq!(selected_packet(&packets, Some(4)), Some(0));
    assert_eq!(selected_packet(&packets, Some(9)), None);
    assert_eq!(selected_packet(&packets, None), None);
}

#[test]
fn source_names() {
    assert_eq!(source_text(PacketSource::Client), "Client");
    assert_eq!(source_text(PacketSource::Server), "Server");
}

#[test]
fn info_tab_of_a_packet() {
    let mut req = packet(1, 10, PacketSource::Client, vec![0x08, 0x09], None);
    req.name = Some("GetReq".to_string());
    let rsp = packet(2, 11, PacketSource::Server, vec![0x08, 0x09], None);
    let packets = vec![req, rsp];
    let info = packet_info(&packets, 1, Some("GetRsp".to_string()));
    assert_eq!(info.name, "GetRsp");
    assert_eq!(info.cmd_id, "11");
    assert_eq!(info.source, "Server");
    assert_eq!(info.pid, "9");
    assert_eq!(info.cs_sc, "GetReq");
    assert_eq!(info.body_len, "3 bytes");
    assert_eq!(info.raw_head_base64, "CAk=");
    assert_eq!(info.decoded_head, "{\n  \"1\": 9\n}");
    let info = packet_info(&packets, 0, None);
    assert_eq!(info.name, "GetReq");
    assert_eq!(info.cs_sc, "<cmd:11>");
    let lone = vec![packet(5, 77, PacketSource::Client, vec![0xff], None)];
    let info = packet_info(&lone, 0, None);
    assert_eq!(info.name, "Cmd 77");
    assert_eq!(info.pid, "0");
    assert_eq!(info.cs_sc, "-");
    assert_eq!(info.raw_head_base64, "/w==");
    assert_eq!(info.decoded_head, "{}");
}

#[test]
fn inspector_text_of_the_selection() {
    let packets = vec![
        packet(1, 10, PacketSource::Client, vec![0x08, 0x09], Some("{\"a\": 1}")),
        packet(2, 11, PacketSource::Server, vec![0xab], None),
    ];
    assert_eq!(inspector_text(&packets, Some(1)), "{\"a\": 1}");
    assert_eq!(
        inspector_text(&packets, Some(2)),
        "{\n  \"body_hex\": \"01 02 03\",\n  \"cmd_id\": 11,\n  \"head_hex\": \"AB\",\n  \"source\": \"Server\"\n}"
    );
    assert_eq!(inspector_text(&packets, Some(3)), "");
    assert_eq!(inspector_text(&packets, None), "");
}

#[test]
fn snapshot_for_decoding_again() {
    let packets = vec![
        packet(3, 10, PacketSource::Client, vec![], None),
        packet(4, 11, PacketSource::Server, vec![], None),
    ];
    let snap = redecode_snapshot(&packets);
    assert_eq!(snap.len(), 2);
    assert_eq!((snap[1].id, snap[1].cmd_id, snap[1].body.clone()), (4, 11, vec![1, 2, 3]));
}

#[test]
fn results_decoded_again_are_applied() {
    let mut packets = vec![
        packet(1, 10, PacketSource::Client, vec![], Some("old")),
        packet(2, 11, PacketSource::Server, vec![], Some("old")),
        packet(1, 12, PacketSource::Client, vec![], Some("old")),
        packet(3, 13, PacketSource::Client, vec![], Some("old")),
    ];
    let results = vec![
        RedecodeResult { id: 1, name: Some("First".to_string()), body_json: None },
        RedecodeResult { id: 2, name: None, body_json: Some("{}".to_string()) },
        RedecodeResult { id: 1, name: Some("Second".to_string()), body_json: Some("[]".to_string()) },
        RedecodeResult { id: 9, name: Some("Nobody".to_string()), body_json: None },
    ];
    apply_redecode_results(&mut packets, results);
    assert_eq!(packets[0].name.as_deref(), Some("Second"));
    assert_eq!(packets[0].body_json.as_deref(), Some("[]"));
    assert_eq!(packets[0].cmd_id, 10);
    assert_eq!(packets[1].name, None);
    assert_eq!(packets[1].body_json.as_deref(), Some("{}"));
    assert_eq!(packets[2].name, None);
    assert_eq!(packets[2].body_json.as_deref(), Some("old"));
    assert_eq!(packets[3].body_json.as_deref(), Some("old"));
}
